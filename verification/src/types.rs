//! The validated quantities a book holds: prices, volumes and sides.

use std::cmp::Ordering;
use vstd::prelude::*;
use vstd::std_specs::cmp::PartialOrdSpecImpl;
use crate::binary64::{
    is_quantity, quantity_key, to_key, whole_part, whole_part_u64, POSITIVE_INFINITY,
};
use crate::error::BookError;

verus! {

/// The side of the book a price level belongs to.
#[derive(Clone, Copy, Debug, PartialEq, Eq, Structural)]
pub enum Side {
    /// Bids: the best level is the highest price.
    Buy,
    /// Asks: the best level is the lowest price.
    Sell,
}

impl Side {
    /// The side's name as feeds spell it.
    pub fn as_str(&self) -> (name: &'static str)
        ensures
            name@ == (match *self {
                Side::Buy => "BUY"@,
                Side::Sell => "SELL"@,
            }),
    {
        match self {
            Side::Buy => "BUY",
            Side::Sell => "SELL",
        }
    }
}

/// A finite, non-negative price, held by the key of its binary64 encoding.
///
/// The only way to make one is [`Price::from_bits`], which refuses negative
/// numbers, infinities and NaNs; so none of them ever reaches a book.
/// Prices order as their keys do.
#[derive(Clone, Copy, Debug, PartialEq, Eq, Ord, Hash, Structural)]
pub struct Price {
    key: u64,
}

impl View for Price {
    type V = u64;

    /// The price's key: see [`quantity_key`].
    closed spec fn view(&self) -> u64 {
        self.key
    }
}

impl Price {
    #[verifier::type_invariant]
    spec fn encodes_quantity(self) -> bool {
        self.key < POSITIVE_INFINITY
    }

    /// Validates the encoding of a price.
    pub fn from_bits(bits: u64) -> (r: Result<Price, BookError>)
        ensures
            r is Ok <==> is_quantity(bits),
            r matches Ok(p) ==> p@ == quantity_key(bits),
            r matches Err(e) ==> e == BookError::InvalidPrice,
    {
        match to_key(bits) {
            Some(key) => Ok(Price { key }),
            None => Err(BookError::InvalidPrice),
        }
    }

    /// The encoding of the price, from which the caller gets the number back.
    pub fn to_bits(&self) -> (bits: u64)
        ensures
            bits == self@,
            bits < POSITIVE_INFINITY,
    {
        proof {
            use_type_invariant(self);
        }
        self.key
    }

    /// Rebuilds a price from a key that a book holds.
    pub(crate) fn from_key(key: u64) -> (p: Price)
        requires
            key < POSITIVE_INFINITY,
        ensures
            p@ == key,
    {
        Price { key }
    }

    /// Two prices with one key are one price.
    pub proof fn lemma_key_identifies(a: Price, b: Price)
        ensures
            a@ == b@ <==> a == b,
    {
    }
}

impl PartialOrd for Price {
    fn partial_cmp(&self, other: &Price) -> (r: Option<Ordering>) {
        if self.key < other.key {
            Some(Ordering::Less)
        } else if self.key > other.key {
            Some(Ordering::Greater)
        } else {
            Some(Ordering::Equal)
        }
    }
}

impl PartialOrdSpecImpl for Price {
    open spec fn obeys_partial_cmp_spec() -> bool {
        true
    }

    open spec fn partial_cmp_spec(&self, other: &Price) -> Option<Ordering> {
        if self@ < other@ {
            Some(Ordering::Less)
        } else if self@ > other@ {
            Some(Ordering::Greater)
        } else {
            Some(Ordering::Equal)
        }
    }
}

/// The size resting at a price level, in whole units. Zero means that nothing
/// rests there: a level of zero volume is not kept.
#[derive(Clone, Copy, Debug, PartialEq, Eq, PartialOrd, Ord, Structural)]
pub struct Volume(pub usize);

/// The volume that the encoding of a size stands for: its whole part, capped
/// at the largest `usize`.
pub open spec fn volume_of(bits: u64) -> nat
    recommends
        is_quantity(bits),
{
    let whole = whole_part(quantity_key(bits));
    if whole <= usize::MAX {
        whole
    } else {
        usize::MAX as nat
    }
}

impl Volume {
    /// Validates the encoding of a size and keeps its whole part.
    pub fn from_bits(bits: u64) -> (r: Result<Volume, BookError>)
        ensures
            r is Ok <==> is_quantity(bits),
            r matches Ok(v) ==> v.0 == volume_of(bits),
            r matches Err(e) ==> e == BookError::InvalidVolume,
    {
        match to_key(bits) {
            Some(key) => {
                let whole: u64 = whole_part_u64(key);
                if whole > usize::MAX as u64 {
                    Ok(Volume(usize::MAX))
                } else {
                    Ok(Volume(whole as usize))
                }
            },
            None => Err(BookError::InvalidVolume),
        }
    }
}

} // verus!

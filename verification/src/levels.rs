//! One side of a book: its price levels, ordered from the best price outward.

use std::collections::BTreeMap;
use vstd::prelude::*;
use vstd::std_specs::btree::group_btree_axioms;
use vstd::std_specs::btree::{increasing_seq, spec_btree_map_iter};
use vstd::std_specs::cmp::OrdSpec;
use vstd::std_specs::iter::IteratorSpec;
use vstd::laws_cmp::group_laws_cmp;
use vstd::set_lib::lemma_map_size;
use crate::polymarket::{level_pairs, OrderSummary};
use crate::binary64::POSITIVE_INFINITY;
use crate::types::{Price, Side, Volume};

verus! {

broadcast use {group_btree_axioms, group_laws_cmp};

/// Whether on `side` the price with key `a` is strictly better than the one
/// with key `b`: higher for bids, lower for asks.
pub open spec fn better(side: Side, a: u64, b: u64) -> bool {
    match side {
        Side::Buy => a > b,
        Side::Sell => a < b,
    }
}

/// Whether `listing` names the price with key `key`.
pub open spec fn lists_price(listing: Seq<(u64, usize)>, key: u64) -> bool {
    exists|i: int| 0 <= i < listing.len() && (#[trigger] listing[i]).0 == key
}

/// Whether `listing` holds the `listing.len()` best levels of `levels` on
/// `side`, the best first: each entry is a level of the map, each is strictly
/// better than the next, and every level left out is worse than all of them.
pub open spec fn is_best_first(
    listing: Seq<(u64, usize)>,
    levels: Map<u64, usize>,
    side: Side,
) -> bool {
    &&& forall|i: int|
        0 <= i < listing.len() ==> levels.contains_key((#[trigger] listing[i]).0)
            && levels[listing[i].0] == listing[i].1
    &&& forall|i: int, j: int|
        0 <= i < j < listing.len() ==> better(
            side,
            (#[trigger] listing[i]).0,
            (#[trigger] listing[j]).0,
        )
    &&& forall|key: u64, i: int|
        #![trigger levels.contains_key(key), listing[i]]
        levels.contains_key(key) && !lists_price(listing, key) && 0 <= i < listing.len()
            ==> better(side, listing[i].0, key)
}

/// Whether `key` is the best price of `levels` on `side`.
pub open spec fn is_best(levels: Map<u64, usize>, side: Side, key: u64) -> bool {
    &&& levels.contains_key(key)
    &&& forall|other: u64| #[trigger] levels.contains_key(other) ==> !better(side, other, key)
}

/// The smaller of a count and the number of levels.
pub open spec fn capped(n: nat, levels: Map<u64, usize>) -> nat {
    if n <= levels.dom().len() {
        n
    } else {
        levels.dom().len()
    }
}

/// A map has one listing of each length: two listings of the same levels
/// that are equally long are equal.
pub proof fn lemma_best_first_is_unique(
    a: Seq<(u64, usize)>,
    b: Seq<(u64, usize)>,
    levels: Map<u64, usize>,
    side: Side,
)
    requires
        is_best_first(a, levels, side),
        is_best_first(b, levels, side),
        a.len() == b.len(),
    ensures
        a == b,
{
    assert forall|i: int| 0 <= i < a.len() implies a[i] == b[i] by {
        lemma_same_price_at(a, b, levels, side, i);
    }
    assert(a =~= b);
}

/// The other side of the book.
pub open spec fn opposite(side: Side) -> Side {
    match side {
        Side::Buy => Side::Sell,
        Side::Sell => Side::Buy,
    }
}

/// Whether `listing` names every price of `levels`.
pub open spec fn lists_all(listing: Seq<(u64, usize)>, levels: Map<u64, usize>) -> bool {
    forall|key: u64| #[trigger] levels.contains_key(key) ==> lists_price(listing, key)
}

/// A listing of all levels, read backwards, is the listing of all levels
/// for the other side: what rises for asks falls for bids.
pub proof fn lemma_reversed_listing(
    listing: Seq<(u64, usize)>,
    levels: Map<u64, usize>,
    side: Side,
)
    requires
        is_best_first(listing, levels, side),
        lists_all(listing, levels),
    ensures
        is_best_first(listing.reverse(), levels, opposite(side)),
        lists_all(listing.reverse(), levels),
{
    let back = listing.reverse();
    let n = listing.len() as int;
    assert forall|i: int| 0 <= i < back.len() implies levels.contains_key((#[trigger] back[i]).0)
        && levels[back[i].0] == back[i].1 by {
        assert(back[i] == listing[n - 1 - i]);
    }
    assert forall|i: int, j: int| 0 <= i < j < back.len() implies better(
        opposite(side),
        (#[trigger] back[i]).0,
        (#[trigger] back[j]).0,
    ) by {
        assert(back[i] == listing[n - 1 - i]);
        assert(back[j] == listing[n - 1 - j]);
        assert(better(side, listing[n - 1 - j].0, listing[n - 1 - i].0));
    }
    assert forall|key: u64| #[trigger] levels.contains_key(key) implies lists_price(back, key) by {
        assert(lists_price(listing, key));
        let i = choose|i: int| 0 <= i < listing.len() && (#[trigger] listing[i]).0 == key;
        assert(back[n - 1 - i] == listing[i]);
    }
}

/// The price levels of one side of a book, at most one for each price.
pub struct PriceLevelMap {
    side: Side,
    /// Volume by the rank of the price, so that walking the tree in its own
    /// order visits the best price first.
    ranked: BTreeMap<u64, usize>,
}

impl View for PriceLevelMap {
    type V = Map<u64, usize>;

    /// The levels as a map from price key to volume.
    closed spec fn view(&self) -> Map<u64, usize> {
        Map::new(
            |key: u64| self.ranked@.contains_key(rank(self.side, key)),
            |key: u64| self.ranked@[rank(self.side, key)],
        )
    }
}

impl PriceLevelMap {
    /// The side whose order the levels follow.
    pub closed spec fn spec_side(&self) -> Side {
        self.side
    }

    /// Every key is that of a finite, non-negative price.
    pub closed spec fn wf(&self) -> bool {
        forall|key: u64| #[trigger] self@.contains_key(key) ==> key < POSITIVE_INFINITY
    }

    /// Every price of a well-formed side is finite and not negative, and
    /// there are finitely many of them.
    pub proof fn lemma_keys_are_prices(&self)
        requires
            self.wf(),
        ensures
            self@.dom().finite(),
            forall|key: u64| #[trigger] self@.contains_key(key) ==> key < POSITIVE_INFINITY,
    {
        self.lemma_same_size();
    }

    /// An empty side.
    pub fn new(side: Side) -> (levels: PriceLevelMap)
        ensures
            levels.wf(),
            levels.spec_side() == side,
            levels@ == Map::<u64, usize>::empty(),
    {
        let levels = PriceLevelMap { side, ranked: BTreeMap::new() };
        assert(levels@ =~= Map::<u64, usize>::empty());
        levels
    }

    /// The side whose order the levels follow.
    pub fn side(&self) -> (side: Side)
        ensures
            side == self.spec_side(),
    {
        self.side
    }

    /// The number of levels.
    pub fn len(&self) -> (n: usize)
        ensures
            n == self@.dom().len(),
    {
        proof {
            self.lemma_same_size();
        }
        self.ranked.len()
    }

    /// Whether there is no level.
    pub fn is_empty(&self) -> (empty: bool)
        ensures
            empty <==> self@ == Map::<u64, usize>::empty(),
    {
        proof {
            self.lemma_same_size();
            if self.ranked@.dom().len() == 0 {
                assert(self.ranked@.dom() =~= Set::empty());
                assert(self@ =~= Map::<u64, usize>::empty());
            }
        }
        self.ranked.len() == 0
    }

    /// The volume at `price`, if a level is there.
    pub fn get(&self, price: Price) -> (volume: Option<Volume>)
        ensures
            volume == (if self@.contains_key(price@) {
                Some(Volume(self@[price@]))
            } else {
                None
            }),
    {
        let key = price.to_bits();
        let r = rank_of(self.side, key);
        match self.ranked.get(&r) {
            Some(v) => Some(Volume(*v)),
            None => None,
        }
    }

    /// Puts `volume` at `price`, over whatever was there.
    pub fn upsert(&mut self, price: Price, volume: Volume)
        requires
            old(self).wf(),
        ensures
            final(self).wf(),
            final(self).spec_side() == old(self).spec_side(),
            final(self)@ == old(self)@.insert(price@, volume.0),
    {
        let key = price.to_bits();
        let r = rank_of(self.side, key);
        self.ranked.insert(r, volume.0);
        assert(self@ =~= old(self)@.insert(price@, volume.0));
    }

    /// Takes the level at `price` away, if there is one.
    pub fn remove(&mut self, price: Price)
        requires
            old(self).wf(),
        ensures
            final(self).wf(),
            final(self).spec_side() == old(self).spec_side(),
            final(self)@ == old(self)@.remove(price@),
    {
        let key = price.to_bits();
        let r = rank_of(self.side, key);
        self.ranked.remove(&r);
        assert(self@ =~= old(self)@.remove(price@));
    }

    /// Takes every level away.
    pub fn clear(&mut self)
        ensures
            final(self).wf(),
            final(self).spec_side() == old(self).spec_side(),
            final(self)@ == Map::<u64, usize>::empty(),
    {
        self.ranked.clear();
        assert(self@ =~= Map::<u64, usize>::empty());
    }
    /// The `n` best levels, the best first; all of them where there are
    /// fewer.
    pub fn best_outward(&self, n: usize) -> (listing: Vec<OrderSummary>)
        requires
            self.wf(),
        ensures
            listing@.len() == capped(n as nat, self@),
            is_best_first(level_pairs(listing@), self@, self.spec_side()),
            listing@.len() == self@.dom().len() ==> lists_all(level_pairs(listing@), self@),
    {
        let side = self.side;
        let mut out: Vec<OrderSummary> = Vec::new();
        proof {
            self.lemma_same_size();
        }
        let ghost yields = spec_btree_map_iter(&self.ranked).remaining();
        for entry in it: self.ranked.iter()
            invariant
                self.wf(),
                side == self.side,
                self@.dom().len() == self.ranked@.dom().len(),
                yields == spec_btree_map_iter(&self.ranked).remaining(),
                it.seq() == yields,
                increasing_seq(yields.map_values(|kv: (&u64, &usize)| *kv.0)),
                out@.len() == it.index(),
                out@.len() <= n,
                forall|i: int|
                    0 <= i < out@.len() ==> (#[trigger] out@[i])@ == (
                        rank(side, *it.seq()[i].0),
                        *it.seq()[i].1,
                    ),
        {
            let ghost walk = it.seq().map_values(|kv: (&u64, &usize)| (*kv.0, *kv.1));
            proof {
                Self::lemma_walk(&self.ranked, it.seq());
            }
            if out.len() >= n {
                proof {
                    self.lemma_walk_prefix(walk, out@.len() as int);
                    assert(level_pairs(out@) =~= unranked(side, walk.take(out@.len() as int)));
                }
                return out;
            }
            let (r, v) = entry;
            let key = rank_of(side, *r);
            proof {
                assert(walk[it.index()] == (*r, *v));
                assert(self.ranked@.contains_key(*r));
                assert(self@.contains_key(key));
            }
            out.push(OrderSummary { price: Price::from_key(key), size: Volume(*v) });
        }
        proof {
            let walk = yields.map_values(|kv: (&u64, &usize)| (*kv.0, *kv.1));
            Self::lemma_walk(&self.ranked, yields);
            self.lemma_walk_prefix(walk, out@.len() as int);
            assert(level_pairs(out@) =~= unranked(side, walk.take(out@.len() as int)));
        }
        out
    }

    /// The level at the best price, or `None` where there is no level.
    pub fn best(&self) -> (level: Option<OrderSummary>)
        requires
            self.wf(),
        ensures
            match level {
                Some(l) => is_best(self@, self.spec_side(), l.price@) && self@[l.price@]
                    == l.size.0,
                None => self@ == Map::<u64, usize>::empty(),
            },
    {
        let first = self.best_outward(1);
        if first.len() == 0 {
            proof {
                assert(self@.dom().len() == 0);
                self.lemma_same_size();
                assert(self@.dom() =~= Set::empty());
                assert(self@ =~= Map::<u64, usize>::empty());
            }
            None
        } else {
            let l = first[0];
            proof {
                let listing = level_pairs(first@);
                assert(listing[0] == l@);
                assert forall|other: u64| #[trigger] self@.contains_key(other) implies !better(
                    self.side,
                    other,
                    l.price@,
                ) by {
                    if !lists_price(listing, other) {
                        assert(better(self.side, listing[0].0, other));
                    }
                }
            }
            Some(l)
        }
    }

    /// All levels in rising order of price.
    pub fn ascending(&self) -> (listing: Vec<OrderSummary>)
        requires
            self.wf(),
        ensures
            listing@.len() == self@.dom().len(),
            is_best_first(level_pairs(listing@), self@, Side::Sell),
            lists_all(level_pairs(listing@), self@),
    {
        self.in_order_of(Side::Sell)
    }

    /// All levels in falling order of price.
    pub fn descending(&self) -> (listing: Vec<OrderSummary>)
        requires
            self.wf(),
        ensures
            listing@.len() == self@.dom().len(),
            is_best_first(level_pairs(listing@), self@, Side::Buy),
            lists_all(level_pairs(listing@), self@),
    {
        self.in_order_of(Side::Buy)
    }

    /// All levels in the order of `order`: the map's own walk, read
    /// backwards where `order` is the other side.
    fn in_order_of(&self, order: Side) -> (listing: Vec<OrderSummary>)
        requires
            self.wf(),
        ensures
            listing@.len() == self@.dom().len(),
            is_best_first(level_pairs(listing@), self@, order),
            lists_all(level_pairs(listing@), self@),
    {
        let count = self.len();
        let all = self.best_outward(count);
        if self.side == order {
            return all;
        }
        let mut back: Vec<OrderSummary> = Vec::new();
        let mut i: usize = all.len();
        while i > 0
            invariant
                i <= all.len(),
                back@.len() == all@.len() - i,
                forall|k: int| 0 <= k < back@.len() ==> back@[k] == all@[all@.len() - 1 - k],
            decreases i,
        {
            i -= 1;
            back.push(all[i]);
        }
        proof {
            lemma_reversed_listing(level_pairs(all@), self@, self.side);
            assert(level_pairs(back@) =~= level_pairs(all@).reverse());
        }
        back
    }

    /// The view has as many keys as the tree.
    proof fn lemma_same_size(&self)
        ensures
            self@.dom().finite(),
            self@.dom().len() == self.ranked@.dom().len(),
    {
        let side = self.side;
        let f = |r: u64| rank(side, r);
        assert(self.ranked@.dom().map(f) =~= self@.dom()) by {
            assert forall|key: u64| self@.dom().contains(key) implies self.ranked@.dom().map(
                f,
            ).contains(key) by {
                assert(self.ranked@.dom().contains(rank(side, key)));
                assert(f(rank(side, key)) == key);
            }
        }
        assert(vstd::relations::injective(f));
        self.ranked@.dom().lemma_map_finite(f);
        lemma_map_size(self.ranked@.dom(), self@.dom(), f);
    }

    /// The first `k` entries of the tree's walk are the `k` best levels.
    proof fn lemma_walk_prefix(&self, walk: Seq<(u64, usize)>, k: int)
        requires
            is_walk_of(walk, self.ranked@),
            0 <= k <= walk.len(),
        ensures
            is_best_first(unranked(self.side, walk.take(k)), self@, self.side),
            k == walk.len() ==> lists_all(unranked(self.side, walk.take(k)), self@),
    {
        let side = self.side;
        let listing = unranked(side, walk.take(k));
        if k == walk.len() {
            assert forall|key: u64| #[trigger] self@.contains_key(key) implies lists_price(
                listing,
                key,
            ) by {
                let r = rank(side, key);
                assert(self.ranked@.contains_key(r));
                let j = choose|j: int| 0 <= j < walk.len() && (#[trigger] walk[j]).0 == r;
                assert(listing[j].0 == key);
            }
        }
        assert forall|i: int| 0 <= i < listing.len() implies self@.contains_key(
            (#[trigger] listing[i]).0,
        ) && self@[listing[i].0] == listing[i].1 by {
            assert(self.ranked@.contains_key(walk[i].0));
        }
        assert forall|i: int, j: int| 0 <= i < j < listing.len() implies better(
            side,
            (#[trigger] listing[i]).0,
            (#[trigger] listing[j]).0,
        ) by {
            assert(walk[i].0 < walk[j].0);
        }
        assert forall|key: u64, i: int|
            #![trigger self@.contains_key(key), listing[i]]
            self@.contains_key(key) && !lists_price(listing, key) && 0 <= i
                < listing.len() implies better(side, listing[i].0, key) by {
            let r = rank(side, key);
            assert(self.ranked@.contains_key(r));
            let j = choose|j: int| 0 <= j < walk.len() && (#[trigger] walk[j]).0 == r;
            if j < k {
                assert(listing[j].0 == key);
                assert(lists_price(listing, key));
            } else {
                assert(walk[i].0 < walk[j].0);
            }
        }
    }

    /// What the tree's iterator yields is the tree's walk.
    proof fn lemma_walk(ranked: &BTreeMap<u64, usize>, yields: Seq<(&u64, &usize)>)
        requires
            yields == spec_btree_map_iter(ranked).remaining(),
            increasing_seq(yields.map_values(|kv: (&u64, &usize)| *kv.0)),
        ensures
            is_walk_of(yields.map_values(|kv: (&u64, &usize)| (*kv.0, *kv.1)), ranked@),
    {
        let walk = yields.map_values(|kv: (&u64, &usize)| (*kv.0, *kv.1));
        let keys = yields.map_values(|kv: (&u64, &usize)| *kv.0);
        lemma_keys_rise(keys);
        assert forall|i: int, j: int| 0 <= i < j < walk.len() implies (#[trigger] walk[i]).0 < (
        #[trigger] walk[j]).0 by {
            assert(keys[i] < keys[j]);
        }
        assert forall|r: u64| #[trigger] ranked@.contains_key(r) implies exists|i: int|
            0 <= i < walk.len() && (#[trigger] walk[i]).0 == r by {
            assert(yields.contains((&r, &ranked@[r])));
            let i = choose|i: int| 0 <= i < yields.len() && yields[i] == (&r, &ranked@[r]);
            assert(walk[i].0 == r);
        }
        assert forall|i: int| 0 <= i < walk.len() implies ranked@.contains_key(
            (#[trigger] walk[i]).0,
        ) && ranked@[walk[i].0] == walk[i].1 by {
            assert(ranked@.contains_key(*yields[i].0));
        }
    }
}

/// Where a price key stands among the keys of its side: the better the
/// price, the smaller the rank. Ranking twice gives the key back.
spec fn rank(side: Side, key: u64) -> u64 {
    match side {
        Side::Buy => (u64::MAX - key) as u64,
        Side::Sell => key,
    }
}

fn rank_of(side: Side, key: u64) -> (r: u64)
    ensures
        r == rank(side, key),
        rank(side, r) == key,
{
    match side {
        Side::Buy => u64::MAX - key,
        Side::Sell => key,
    }
}

/// The keys of a tree's walk come in strictly rising order.
proof fn lemma_keys_rise(keys: Seq<u64>)
    requires
        increasing_seq(keys),
    ensures
        forall|i: int, j: int| 0 <= i < j < keys.len() ==> #[trigger] keys[i] < #[trigger] keys[j],
{
    assert forall|i: int, j: int| 0 <= i < j < keys.len() implies #[trigger] keys[i]
        < #[trigger] keys[j] by {
        assert(keys[i].cmp_spec(&keys[j]) is Less);
    }
}

/// Whether `walk` is the whole content of `ranked` in rising order of rank.
spec fn is_walk_of(walk: Seq<(u64, usize)>, ranked: Map<u64, usize>) -> bool {
    &&& walk.len() == ranked.dom().len()
    &&& forall|i: int|
        0 <= i < walk.len() ==> ranked.contains_key((#[trigger] walk[i]).0) && ranked[walk[i].0]
            == walk[i].1
    &&& forall|i: int, j: int|
        0 <= i < j < walk.len() ==> (#[trigger] walk[i]).0 < (#[trigger] walk[j]).0
    &&& forall|r: u64|
        #[trigger] ranked.contains_key(r) ==> exists|i: int|
            0 <= i < walk.len() && (#[trigger] walk[i]).0 == r
}

/// The levels that a walk's entries stand for: each rank turned back into
/// its price key.
spec fn unranked(side: Side, walk: Seq<(u64, usize)>) -> Seq<(u64, usize)> {
    walk.map_values(|entry: (u64, usize)| (rank(side, entry.0), entry.1))
}

proof fn lemma_same_price_at(
    a: Seq<(u64, usize)>,
    b: Seq<(u64, usize)>,
    levels: Map<u64, usize>,
    side: Side,
    i: int,
)
    requires
        is_best_first(a, levels, side),
        is_best_first(b, levels, side),
        a.len() == b.len(),
        0 <= i < a.len(),
    ensures
        a[i] == b[i],
    decreases i,
{
    assert forall|j: int| 0 <= j < i implies a[j] == b[j] by {
        lemma_same_price_at(a, b, levels, side, j);
    }
    lemma_not_worse_at(a, b, levels, side, i);
    lemma_not_worse_at(b, a, levels, side, i);
    assert(levels.contains_key(a[i].0));
    assert(levels.contains_key(b[i].0));
}

/// With equal entries before `i`, the entry of `b` at `i` is not strictly
/// better than that of `a`.
proof fn lemma_not_worse_at(
    a: Seq<(u64, usize)>,
    b: Seq<(u64, usize)>,
    levels: Map<u64, usize>,
    side: Side,
    i: int,
)
    requires
        is_best_first(a, levels, side),
        is_best_first(b, levels, side),
        a.len() == b.len(),
        0 <= i < a.len(),
        forall|j: int| 0 <= j < i ==> a[j] == b[j],
    ensures
        !better(side, b[i].0, a[i].0),
{
    let key = b[i].0;
    assert(levels.contains_key(key));
    if lists_price(a, key) {
        let j = choose|j: int| 0 <= j < a.len() && (#[trigger] a[j]).0 == key;
        if j < i {
            assert(a[j] == b[j]);
            assert(better(side, b[j].0, b[i].0));
        } else if j > i {
            assert(better(side, a[i].0, a[j].0));
        }
    } else {
        assert(better(side, a[i].0, key));
    }
}

} // verus!

//! The two-sided book of one instrument.

use vstd::prelude::*;
use crate::binary64::POSITIVE_INFINITY;
use crate::error::BookError;
use crate::levels::{better, capped, is_best, is_best_first, PriceLevelMap};
use crate::polymarket::{
    first_error, level_error, level_of, level_pairs, levels_of, validate_levels, OrderSummary,
};
use crate::types::{Price, Side, Volume};

verus! {

/// What a book holds, as mathematics: each side as a map from price key to
/// volume, and the key of the last traded price.
pub struct BookView {
    pub bids: Map<u64, usize>,
    pub asks: Map<u64, usize>,
    pub last_traded_price: Option<u64>,
}

impl BookView {
    /// A book without levels that has seen no trade.
    pub open spec fn empty() -> BookView {
        BookView { bids: Map::empty(), asks: Map::empty(), last_traded_price: None }
    }

    /// The levels of one side.
    pub open spec fn side(self, side: Side) -> Map<u64, usize> {
        match side {
            Side::Buy => self.bids,
            Side::Sell => self.asks,
        }
    }

    /// The book with the levels of one side replaced.
    pub open spec fn with_side(self, side: Side, levels: Map<u64, usize>) -> BookView {
        match side {
            Side::Buy => BookView { bids: levels, ..self },
            Side::Sell => BookView { asks: levels, ..self },
        }
    }
}

/// The levels after one update of a single level: a volume of zero takes the
/// level away, any other volume is put there over what was there.
pub open spec fn with_level(levels: Map<u64, usize>, key: u64, volume: usize) -> Map<u64, usize> {
    if volume == 0 {
        levels.remove(key)
    } else {
        levels.insert(key, volume)
    }
}

/// The book after one update of a single level of one side.
pub open spec fn after_delta(book: BookView, side: Side, key: u64, volume: usize) -> BookView {
    book.with_side(side, with_level(book.side(side), key, volume))
}

/// The book after a snapshot: each side is built from nothing by the
/// snapshot's entries, each taken as an update of its level, so that an entry
/// of volume zero leaves no level. The last traded price stays.
pub open spec fn after_snapshot(
    book: BookView,
    bids: Seq<(u64, usize)>,
    asks: Seq<(u64, usize)>,
) -> BookView {
    BookView {
        bids: with_levels(Map::empty(), bids),
        asks: with_levels(Map::empty(), asks),
        last_traded_price: book.last_traded_price,
    }
}

/// The levels after a sequence of single-level updates, applied in order: of
/// two updates of one price the later decides.
pub open spec fn with_levels(levels: Map<u64, usize>, updates: Seq<(u64, usize)>) -> Map<
    u64,
    usize,
>
    decreases updates.len(),
{
    if updates.len() == 0 {
        levels
    } else {
        with_level(
            with_levels(levels, updates.drop_last()),
            updates.last().0,
            updates.last().1,
        )
    }
}

/// Whether no price occurs twice among `levels`.
pub open spec fn has_distinct_prices(levels: Seq<(u64, usize)>) -> bool {
    forall|i: int, j: int|
        0 <= i < j < levels.len() ==> (#[trigger] levels[i]).0 != (#[trigger] levels[j]).0
}

/// Applying one update twice gives what applying it once gives, whatever its
/// volume.
pub proof fn lemma_delta_is_idempotent(book: BookView, side: Side, key: u64, volume: usize)
    ensures
        after_delta(after_delta(book, side, key, volume), side, key, volume) == after_delta(
            book,
            side,
            key,
            volume,
        ),
{
    let once = with_level(book.side(side), key, volume);
    assert(with_level(once, key, volume) =~= once);
}

/// An update of volume zero takes the level at its price away, and a second
/// one finds nothing to take: the book stays as the first left it.
pub proof fn lemma_removal_is_idempotent(book: BookView, side: Side, key: u64)
    ensures
        !after_delta(book, side, key, 0).side(side).contains_key(key),
        after_delta(after_delta(book, side, key, 0), side, key, 0) == after_delta(
            book,
            side,
            key,
            0,
        ),
{
    lemma_delta_is_idempotent(book, side, key, 0);
}

/// An update of one side leaves the other side and the last traded price as
/// they were.
pub proof fn lemma_delta_keeps_the_rest(book: BookView, side: Side, key: u64, volume: usize)
    ensures
        after_delta(book, side, key, volume).last_traded_price == book.last_traded_price,
        side == Side::Buy ==> after_delta(book, side, key, volume).asks == book.asks,
        side == Side::Sell ==> after_delta(book, side, key, volume).bids == book.bids,
{
}

/// Whether every level of `levels` has a volume above zero.
pub open spec fn has_positive_volumes(levels: Seq<(u64, usize)>) -> bool {
    forall|i: int| 0 <= i < levels.len() ==> (#[trigger] levels[i]).1 > 0
}

/// Of the entries of a snapshot that name one price, the last decides: its
/// volume is the level's, and where that is zero there is no level.
pub proof fn lemma_last_entry_decides(entries: Seq<(u64, usize)>, i: int)
    requires
        0 <= i < entries.len(),
        forall|j: int| i < j < entries.len() ==> (#[trigger] entries[j]).0 != entries[i].0,
    ensures
        with_levels(Map::empty(), entries).contains_key(entries[i].0) <==> entries[i].1 > 0,
        entries[i].1 > 0 ==> with_levels(Map::empty(), entries)[entries[i].0] == entries[i].1,
    decreases entries.len(),
{
    if i < entries.len() - 1 {
        let before = entries.drop_last();
        assert forall|j: int| i < j < before.len() implies (#[trigger] before[j]).0
            != before[i].0 by {
            assert(before[j] == entries[j]);
        }
        lemma_last_entry_decides(before, i);
        assert(entries[entries.len() - 1].0 != entries[i].0);
    }
}

/// A snapshot gives a side no price that none of its entries names, and no
/// level of volume zero.
pub proof fn lemma_snapshot_names_its_prices(entries: Seq<(u64, usize)>)
    ensures
        forall|key: u64|
            #[trigger] with_levels(Map::empty(), entries).contains_key(key) ==> exists|i: int|
                0 <= i < entries.len() && (#[trigger] entries[i]).0 == key,
        forall|key: u64|
            #[trigger] with_levels(Map::empty(), entries).contains_key(key) ==> with_levels(
                Map::empty(),
                entries,
            )[key] > 0,
    decreases entries.len(),
{
    if entries.len() > 0 {
        let before = entries.drop_last();
        lemma_snapshot_names_its_prices(before);
        assert forall|key: u64| #[trigger]
            with_levels(Map::empty(), entries).contains_key(key) implies exists|i: int|
            0 <= i < entries.len() && (#[trigger] entries[i]).0 == key by {
            if key == entries.last().0 {
                assert(entries[entries.len() - 1].0 == key);
            } else {
                assert(with_levels(Map::empty(), before).contains_key(key));
                let i = choose|i: int| 0 <= i < before.len() && (#[trigger] before[i]).0 == key;
                assert(entries[i].0 == key);
            }
        }
        assert forall|key: u64| #[trigger]
            with_levels(Map::empty(), entries).contains_key(key) implies with_levels(
            Map::empty(),
            entries,
        )[key] > 0 by {
            if key != entries.last().0 {
                assert(with_levels(Map::empty(), before).contains_key(key));
            }
        }
    }
}

/// A snapshot without a repeated price and without a volume of zero gives a
/// side exactly its levels.
pub proof fn lemma_snapshot_holds_its_levels(levels: Seq<(u64, usize)>)
    requires
        has_distinct_prices(levels),
        has_positive_volumes(levels),
    ensures
        forall|i: int|
            0 <= i < levels.len() ==> with_levels(Map::empty(), levels).contains_key(
                (#[trigger] levels[i]).0,
            ) && with_levels(Map::empty(), levels)[levels[i].0] == levels[i].1,
        forall|key: u64|
            #[trigger] with_levels(Map::empty(), levels).contains_key(key) ==> exists|i: int|
                0 <= i < levels.len() && (#[trigger] levels[i]).0 == key,
{
    lemma_snapshot_names_its_prices(levels);
    assert forall|i: int| 0 <= i < levels.len() implies with_levels(
        Map::empty(),
        levels,
    ).contains_key((#[trigger] levels[i]).0) && with_levels(Map::empty(), levels)[levels[i].0]
        == levels[i].1 by {
        lemma_last_entry_decides(levels, i);
    }
}

/// After a snapshot without a repeated price and without a volume of zero,
/// the best level of a side is the snapshot's level that no other of its
/// levels betters: the highest price among bids, the lowest among asks.
pub proof fn lemma_snapshot_best(levels: Seq<(u64, usize)>, side: Side, i: int)
    requires
        has_distinct_prices(levels),
        has_positive_volumes(levels),
        0 <= i < levels.len(),
        forall|j: int|
            0 <= j < levels.len() ==> !better(side, (#[trigger] levels[j]).0, levels[i].0),
    ensures
        is_best(with_levels(Map::empty(), levels), side, levels[i].0),
        with_levels(Map::empty(), levels)[levels[i].0] == levels[i].1,
{
    lemma_snapshot_holds_its_levels(levels);
    let built = with_levels(Map::empty(), levels);
    assert(built.contains_key(levels[i].0));
    assert forall|other: u64| #[trigger] built.contains_key(other) implies !better(
        side,
        other,
        levels[i].0,
    ) by {
        let j = choose|j: int| 0 <= j < levels.len() && (#[trigger] levels[j]).0 == other;
        assert(!better(side, levels[j].0, levels[i].0));
    }
}

/// After a snapshot without a repeated price on either side and without a
/// volume of zero, the best bid is the snapshot's bid of the highest price
/// and the best ask its ask of the lowest price.
pub proof fn lemma_snapshot_best_bid_and_ask(
    book: BookView,
    bids: Seq<(u64, usize)>,
    asks: Seq<(u64, usize)>,
    highest: int,
    lowest: int,
)
    requires
        has_distinct_prices(bids),
        has_positive_volumes(bids),
        has_distinct_prices(asks),
        has_positive_volumes(asks),
        0 <= highest < bids.len(),
        forall|j: int| 0 <= j < bids.len() ==> (#[trigger] bids[j]).0 <= bids[highest].0,
        0 <= lowest < asks.len(),
        forall|j: int| 0 <= j < asks.len() ==> (#[trigger] asks[j]).0 >= asks[lowest].0,
    ensures
        is_best(after_snapshot(book, bids, asks).bids, Side::Buy, bids[highest].0),
        after_snapshot(book, bids, asks).bids[bids[highest].0] == bids[highest].1,
        is_best(after_snapshot(book, bids, asks).asks, Side::Sell, asks[lowest].0),
        after_snapshot(book, bids, asks).asks[asks[lowest].0] == asks[lowest].1,
{
    lemma_snapshot_best(bids, Side::Buy, highest);
    lemma_snapshot_best(asks, Side::Sell, lowest);
}

/// The best price of a side is the only one: two prices that are both best
/// are one.
pub proof fn lemma_best_is_unique(levels: Map<u64, usize>, side: Side, a: u64, b: u64)
    requires
        is_best(levels, side, a),
        is_best(levels, side, b),
    ensures
        a == b,
{
}

/// The greatest volume among `levels`, or `None` where there is no level.
pub open spec fn max_volume(levels: Seq<(u64, usize)>) -> Option<usize>
    decreases levels.len(),
{
    if levels.len() == 0 {
        None
    } else {
        match max_volume(levels.drop_last()) {
            Some(v) if v >= levels.last().1 => Some(v),
            _ => Some(levels.last().1),
        }
    }
}

/// The greatest volume is the volume of a level, and no level has more.
pub proof fn lemma_max_volume_is_greatest(levels: Seq<(u64, usize)>)
    ensures
        match max_volume(levels) {
            Some(v) => {
                &&& exists|i: int| 0 <= i < levels.len() && (#[trigger] levels[i]).1 == v
                &&& forall|i: int| 0 <= i < levels.len() ==> (#[trigger] levels[i]).1 <= v
            },
            None => levels.len() == 0,
        },
    decreases levels.len(),
{
    if levels.len() > 0 {
        let before = levels.drop_last();
        lemma_max_volume_is_greatest(before);
        let v = max_volume(levels)->0;
        assert forall|i: int| 0 <= i < levels.len() implies (#[trigger] levels[i]).1 <= v by {
            if i < before.len() {
                assert(before[i] == levels[i]);
            }
        }
        if v == levels.last().1 {
            assert(levels[levels.len() - 1].1 == v);
        } else {
            let i = choose|i: int| 0 <= i < before.len() && (#[trigger] before[i]).1 == v;
            assert(levels[i].1 == v);
        }
    }
}

/// The best levels of a book, for display: up to a given number of each
/// side, the best first, and the greatest volume among them, by which a
/// chart is scaled.
#[derive(Debug)]
pub struct TopOfBook {
    /// The lowest asks, in rising order of price.
    pub asks: Vec<OrderSummary>,
    /// The highest bids, in falling order of price.
    pub bids: Vec<OrderSummary>,
    /// The greatest volume among `asks` and `bids`; `None` where both are
    /// empty.
    pub max_volume: Option<Volume>,
}

/// The order book of one instrument: bids, asks and the last traded price.
pub struct Book {
    buy_side: PriceLevelMap,
    sell_side: PriceLevelMap,
    last_traded_price: Option<Price>,
}

impl View for Book {
    type V = BookView;

    closed spec fn view(&self) -> BookView {
        BookView {
            bids: self.buy_side@,
            asks: self.sell_side@,
            last_traded_price: match self.last_traded_price {
                Some(price) => Some(price@),
                None => None,
            },
        }
    }
}

impl Default for Book {
    fn default() -> (book: Book)
        ensures
            book.wf(),
            book@ == BookView::empty(),
    {
        Book::new()
    }
}

impl Book {
    /// The book's invariant: each side is well formed and follows its own
    /// order, no level of volume zero is kept, and the last traded price is
    /// a price.
    pub closed spec fn wf(&self) -> bool {
        &&& self.buy_side.wf()
        &&& self.sell_side.wf()
        &&& self.buy_side.spec_side() == Side::Buy
        &&& self.sell_side.spec_side() == Side::Sell
        &&& forall|key: u64| #[trigger] self.buy_side@.contains_key(key) ==> self.buy_side@[key] > 0
        &&& forall|key: u64|
            #[trigger] self.sell_side@.contains_key(key) ==> self.sell_side@[key] > 0
        &&& self.last_traded_price matches Some(price) ==> price@ < POSITIVE_INFINITY
    }

    /// In a well-formed book every level has a volume above zero: a level of
    /// volume zero is absent, not kept with nothing in it.
    pub proof fn lemma_levels_are_positive(&self)
        requires
            self.wf(),
        ensures
            forall|key: u64| #[trigger] self@.bids.contains_key(key) ==> self@.bids[key] > 0,
            forall|key: u64| #[trigger] self@.asks.contains_key(key) ==> self@.asks[key] > 0,
    {
    }

    /// Nothing but finite, non-negative prices is found in a well-formed
    /// book, and finitely many levels.
    pub proof fn lemma_keys_are_prices(&self)
        requires
            self.wf(),
        ensures
            self@.bids.dom().finite(),
            self@.asks.dom().finite(),
            forall|key: u64| #[trigger] self@.bids.contains_key(key) ==> key < POSITIVE_INFINITY,
            forall|key: u64| #[trigger] self@.asks.contains_key(key) ==> key < POSITIVE_INFINITY,
            self@.last_traded_price matches Some(key) ==> key < POSITIVE_INFINITY,
    {
        self.buy_side.lemma_keys_are_prices();
        self.sell_side.lemma_keys_are_prices();
    }

    /// An empty book that has seen no trade.
    pub fn new() -> (book: Book)
        ensures
            book.wf(),
            book@ == BookView::empty(),
    {
        Book {
            buy_side: PriceLevelMap::new(Side::Buy),
            sell_side: PriceLevelMap::new(Side::Sell),
            last_traded_price: None,
        }
    }

    /// Records the price of the latest trade, over any earlier one.
    pub fn set_last_traded_price(&mut self, last_traded_price: Price)
        requires
            old(self).wf(),
        ensures
            final(self).wf(),
            final(self)@ == (BookView {
                last_traded_price: Some(last_traded_price@),
                ..old(self)@
            }),
    {
        // Reading the encoding brings along that it is below infinity.
        let _ = last_traded_price.to_bits();
        self.last_traded_price = Some(last_traded_price);
    }

    /// The price of the latest trade, or `None` before the first one.
    pub fn last_traded_price(&self) -> (price: Option<Price>)
        ensures
            match price {
                Some(p) => self@.last_traded_price == Some(p@),
                None => self@.last_traded_price == None::<u64>,
            },
    {
        self.last_traded_price
    }

    /// Updates one level: a volume of zero takes the level at `price` away,
    /// any other volume is put there. The other side and the last traded
    /// price stay.
    pub fn set_one(&mut self, side: Side, price: Price, volume: Volume)
        requires
            old(self).wf(),
        ensures
            final(self).wf(),
            final(self)@ == after_delta(old(self)@, side, price@, volume.0),
    {
        match side {
            Side::Buy => {
                if volume.0 == 0 {
                    self.buy_side.remove(price);
                } else {
                    self.buy_side.upsert(price, volume);
                }
            },
            Side::Sell => {
                if volume.0 == 0 {
                    self.sell_side.remove(price);
                } else {
                    self.sell_side.upsert(price, volume);
                }
            },
        }
    }

    /// Replaces both sides by the levels of a snapshot; nothing of the
    /// earlier levels stays. Of two entries with one price the later decides,
    /// and an entry of volume zero leaves no level. The last traded price
    /// stays.
    pub fn set_all(&mut self, bids: Vec<OrderSummary>, asks: Vec<OrderSummary>)
        requires
            old(self).wf(),
        ensures
            final(self).wf(),
            final(self)@ == after_snapshot(old(self)@, level_pairs(bids@), level_pairs(asks@)),
    {
        self.load(&bids, &asks);
    }

    /// What [`Book::set_all`] does, on borrowed levels.
    pub(crate) fn load(&mut self, bids: &Vec<OrderSummary>, asks: &Vec<OrderSummary>)
        requires
            old(self).wf(),
        ensures
            final(self).wf(),
            final(self)@ == after_snapshot(old(self)@, level_pairs(bids@), level_pairs(asks@)),
    {
        self.buy_side.clear();
        self.sell_side.clear();
        let ghost last = self@.last_traded_price;
        let mut i: usize = 0;
        while i < bids.len()
            invariant
                self.wf(),
                i <= bids.len(),
                self@.bids == with_levels(Map::empty(), level_pairs(bids@).take(i as int)),
                self@.asks == Map::<u64, usize>::empty(),
                self@.last_traded_price == last,
            decreases bids.len() - i,
        {
            let bid = bids[i];
            proof {
                let pairs = level_pairs(bids@);
                assert(pairs.take(i + 1).drop_last() =~= pairs.take(i as int));
                assert(pairs.take(i + 1).last() == bid@);
            }
            self.set_one(Side::Buy, bid.price, bid.size);
            i += 1;
        }
        assert(level_pairs(bids@).take(i as int) =~= level_pairs(bids@));
        let mut j: usize = 0;
        while j < asks.len()
            invariant
                self.wf(),
                j <= asks.len(),
                self@.bids == with_levels(Map::empty(), level_pairs(bids@)),
                self@.asks == with_levels(Map::empty(), level_pairs(asks@).take(j as int)),
                self@.last_traded_price == last,
            decreases asks.len() - j,
        {
            let ask = asks[j];
            proof {
                let pairs = level_pairs(asks@);
                assert(pairs.take(j + 1).drop_last() =~= pairs.take(j as int));
                assert(pairs.take(j + 1).last() == ask@);
            }
            self.set_one(Side::Sell, ask.price, ask.size);
            j += 1;
        }
        assert(level_pairs(asks@).take(j as int) =~= level_pairs(asks@));
    }

    /// Updates one level from the encodings of its price and size, as
    /// [`Book::set_one`] does. Where either is refused, so is the update, and
    /// the book stays as it was.
    pub fn apply_delta(&mut self, side: Side, price_bits: u64, size_bits: u64) -> (r: Result<
        (),
        BookError,
    >)
        requires
            old(self).wf(),
        ensures
            final(self).wf(),
            match r {
                Ok(_) => {
                    &&& level_error(price_bits, size_bits) is None
                    &&& final(self)@ == after_delta(
                        old(self)@,
                        side,
                        level_of(price_bits, size_bits).0,
                        level_of(price_bits, size_bits).1,
                    )
                },
                Err(e) => level_error(price_bits, size_bits) == Some(e) && final(self)@ == old(
                    self,
                )@,
            },
    {
        match OrderSummary::from_bits(price_bits, size_bits) {
            Ok(level) => {
                self.set_one(side, level.price, level.size);
                Ok(())
            },
            Err(e) => Err(e),
        }
    }

    /// Replaces both sides by the levels of a snapshot, as [`Book::set_all`]
    /// does, from the encodings of their prices and sizes. Every level is
    /// looked at before anything changes, bids first: where one is refused,
    /// so is the snapshot, and the book stays as it was.
    pub fn replace_snapshot(&mut self, bids: &Vec<(u64, u64)>, asks: &Vec<(u64, u64)>) -> (r:
        Result<(), BookError>)
        requires
            old(self).wf(),
        ensures
            final(self).wf(),
            match r {
                Ok(_) => {
                    &&& first_error(bids@) is None
                    &&& first_error(asks@) is None
                    &&& final(self)@ == after_snapshot(
                        old(self)@,
                        levels_of(bids@),
                        levels_of(asks@),
                    )
                },
                Err(e) => {
                    &&& final(self)@ == old(self)@
                    &&& Some(e) == (if first_error(bids@) is Some {
                        first_error(bids@)
                    } else {
                        first_error(asks@)
                    })
                },
            },
    {
        let bids = match validate_levels(bids) {
            Ok(levels) => levels,
            Err(e) => {
                return Err(e);
            },
        };
        let asks = match validate_levels(asks) {
            Ok(levels) => levels,
            Err(e) => {
                return Err(e);
            },
        };
        self.set_all(bids, asks);
        Ok(())
    }

    /// The `n` best levels of each side and the greatest volume among them.
    /// The book stays as it is.
    pub fn top_n(&self, n: usize) -> (top: TopOfBook)
        requires
            self.wf(),
        ensures
            top.asks@.len() == capped(n as nat, self@.asks),
            is_best_first(level_pairs(top.asks@), self@.asks, Side::Sell),
            top.bids@.len() == capped(n as nat, self@.bids),
            is_best_first(level_pairs(top.bids@), self@.bids, Side::Buy),
            match top.max_volume {
                Some(v) => v.0 > 0 && max_volume(level_pairs(top.asks@) + level_pairs(top.bids@))
                    == Some(v.0),
                None => top.asks@.len() == 0 && top.bids@.len() == 0,
            },
    {
        let asks = self.sell_side.best_outward(n);
        let bids = self.buy_side.best_outward(n);
        let over_asks = greatest_volume(&asks, None, Ghost(Seq::empty()));
        assert(Seq::<(u64, usize)>::empty() + level_pairs(asks@) =~= level_pairs(asks@));
        let max_volume = greatest_volume(&bids, over_asks, Ghost(level_pairs(asks@)));
        proof {
            let listed = level_pairs(asks@) + level_pairs(bids@);
            lemma_max_volume_is_greatest(listed);
            if let Some(v) = max_volume {
                let i = choose|i: int| 0 <= i < listed.len() && (#[trigger] listed[i]).1 == v.0;
                if i < asks@.len() {
                    assert(listed[i] == level_pairs(asks@)[i]);
                    assert(self@.asks.contains_key(level_pairs(asks@)[i].0));
                } else {
                    assert(listed[i] == level_pairs(bids@)[i - asks@.len()]);
                    assert(self@.bids.contains_key(level_pairs(bids@)[i - asks@.len()].0));
                }
            }
        }
        TopOfBook { asks, bids, max_volume }
    }

    /// The levels of one side.
    pub fn levels(&self, side: Side) -> (levels: &PriceLevelMap)
        ensures
            levels@ == self@.side(side),
            self.wf() ==> levels.wf() && levels.spec_side() == side,
    {
        match side {
            Side::Buy => &self.buy_side,
            Side::Sell => &self.sell_side,
        }
    }

    /// The highest bid, or `None` where there is no bid.
    pub fn best_bid(&self) -> (level: Option<OrderSummary>)
        requires
            self.wf(),
        ensures
            match level {
                Some(l) => is_best(self@.bids, Side::Buy, l.price@) && self@.bids[l.price@]
                    == l.size.0,
                None => self@.bids == Map::<u64, usize>::empty(),
            },
    {
        self.buy_side.best()
    }

    /// The lowest ask, or `None` where there is no ask.
    pub fn best_ask(&self) -> (level: Option<OrderSummary>)
        requires
            self.wf(),
        ensures
            match level {
                Some(l) => is_best(self@.asks, Side::Sell, l.price@) && self@.asks[l.price@]
                    == l.size.0,
                None => self@.asks == Map::<u64, usize>::empty(),
            },
    {
        self.sell_side.best()
    }
}

/// Carries the greatest volume of `seen` on over `levels`.
fn greatest_volume(levels: &Vec<OrderSummary>, so_far: Option<Volume>, Ghost(seen): Ghost<
    Seq<(u64, usize)>,
>) -> (greatest: Option<Volume>)
    requires
        match so_far {
            Some(v) => max_volume(seen) == Some(v.0),
            None => seen.len() == 0,
        },
    ensures
        match greatest {
            Some(v) => max_volume(seen + level_pairs(levels@)) == Some(v.0),
            None => seen.len() == 0 && levels@.len() == 0,
        },
{
    let ghost pairs = level_pairs(levels@);
    let mut greatest = so_far;
    let mut i: usize = 0;
    assert(seen + pairs.take(0) =~= seen);
    while i < levels.len()
        invariant
            i <= levels.len(),
            pairs == level_pairs(levels@),
            match greatest {
                Some(v) => max_volume(seen + pairs.take(i as int)) == Some(v.0),
                None => seen.len() == 0 && i == 0,
            },
        decreases levels.len() - i,
    {
        let size = levels[i].size;
        proof {
            let next = seen + pairs.take(i + 1);
            assert(next.drop_last() =~= seen + pairs.take(i as int));
            assert(next.last() == levels@[i as int]@);
            if greatest is None {
                assert(next.drop_last().len() == 0);
            }
        }
        greatest = match greatest {
            Some(v) if v.0 >= size.0 => Some(v),
            _ => Some(size),
        };
        i += 1;
    }
    assert(pairs.take(i as int) =~= pairs);
    greatest
}

} // verus!

//! The updates of a market feed, decoded and validated.

use vstd::prelude::*;
use crate::binary64::{is_quantity, quantity_key};
use crate::book::{after_delta, after_snapshot, Book, BookView};
use crate::error::BookError;
use crate::types::{volume_of, Price, Side, Volume};

verus! {

/// One price level: a price and the size resting there.
#[derive(Clone, Copy, Debug, PartialEq, Eq, Structural)]
pub struct OrderSummary {
    pub price: Price,
    pub size: Volume,
}

impl View for OrderSummary {
    type V = (u64, usize);

    /// The level as a pair of price key and volume.
    open spec fn view(&self) -> (u64, usize) {
        (self.price@, self.size.0)
    }
}

/// The levels of a sequence, each as a pair of price key and volume.
pub open spec fn level_pairs(levels: Seq<OrderSummary>) -> Seq<(u64, usize)> {
    levels.map_values(|level: OrderSummary| level@)
}

/// Why the encodings of a level's price and size are refused, if they are:
/// the price is looked at first.
pub open spec fn level_error(price_bits: u64, size_bits: u64) -> Option<BookError> {
    if !is_quantity(price_bits) {
        Some(BookError::InvalidPrice)
    } else if !is_quantity(size_bits) {
        Some(BookError::InvalidVolume)
    } else {
        None
    }
}

/// The level that the encodings of a price and a size stand for.
pub open spec fn level_of(price_bits: u64, size_bits: u64) -> (u64, usize)
    recommends
        level_error(price_bits, size_bits) is None,
{
    (quantity_key(price_bits), volume_of(size_bits) as usize)
}

/// Why a sequence of encoded levels is refused, if it is: the error of the
/// first level that is refused.
pub open spec fn first_error(raw: Seq<(u64, u64)>) -> Option<BookError>
    decreases raw.len(),
{
    if raw.len() == 0 {
        None
    } else {
        match first_error(raw.drop_last()) {
            Some(e) => Some(e),
            None => level_error(raw.last().0, raw.last().1),
        }
    }
}

/// The levels that a sequence of encoded levels stands for.
pub open spec fn levels_of(raw: Seq<(u64, u64)>) -> Seq<(u64, usize)> {
    raw.map_values(|encoded: (u64, u64)| level_of(encoded.0, encoded.1))
}

/// A sequence of encoded levels is accepted exactly when each level is.
pub proof fn lemma_first_error(raw: Seq<(u64, u64)>)
    ensures
        first_error(raw) is None <==> forall|i: int|
            0 <= i < raw.len() ==> level_error((#[trigger] raw[i]).0, raw[i].1) is None,
    decreases raw.len(),
{
    if raw.len() > 0 {
        let before = raw.drop_last();
        lemma_first_error(before);
        if first_error(raw) is None {
            assert forall|i: int| 0 <= i < raw.len() implies level_error(
                (#[trigger] raw[i]).0,
                raw[i].1,
            ) is None by {
                if i < before.len() {
                    assert(before[i] == raw[i]);
                }
            }
        } else if first_error(before) is Some {
            let i = choose|i: int|
                0 <= i < before.len() && !(level_error((#[trigger] before[i]).0, before[i].1)
                    is None);
            assert(before[i] == raw[i]);
        } else {
            assert(raw[raw.len() - 1] == raw.last());
        }
    }
}

/// Validates a sequence of encoded levels, each a pair of the encodings of
/// price and size. One refused level refuses them all.
pub fn validate_levels(raw: &Vec<(u64, u64)>) -> (r: Result<Vec<OrderSummary>, BookError>)
    ensures
        match r {
            Ok(levels) => first_error(raw@) is None && level_pairs(levels@) == levels_of(raw@),
            Err(e) => first_error(raw@) == Some(e),
        },
{
    let mut levels: Vec<OrderSummary> = Vec::new();
    let mut i: usize = 0;
    while i < raw.len()
        invariant
            i <= raw.len(),
            first_error(raw@.take(i as int)) is None,
            levels@.len() == i,
            level_pairs(levels@) =~= levels_of(raw@.take(i as int)),
        decreases raw.len() - i,
    {
        let (price_bits, size_bits) = raw[i];
        proof {
            assert(raw@.take(i + 1).drop_last() =~= raw@.take(i as int));
            assert(raw@.take(i + 1).last() == raw@[i as int]);
        }
        match OrderSummary::from_bits(price_bits, size_bits) {
            Ok(level) => {
                let ghost before = levels@;
                levels.push(level);
                proof {
                    let next = levels_of(raw@.take(i + 1));
                    assert(levels@ == before.push(level));
                    assert(next.len() == i + 1);
                    assert(level_pairs(levels@).len() == i + 1);
                    assert forall|k: int| 0 <= k < next.len() implies level_pairs(levels@)[k]
                        == next[k] by {
                        if k < i {
                            assert(level_pairs(before)[k] == levels_of(raw@.take(i as int))[k]);
                            assert(raw@.take(i as int)[k] == raw@.take(i + 1)[k]);
                            assert(levels@[k] == before[k]);
                        } else {
                            assert(levels@[k] == level);
                            assert(raw@.take(i + 1)[k] == raw@[i as int]);
                        }
                    }
                }
            },
            Err(e) => {
                proof {
                    lemma_first_error_extends(raw@, i + 1);
                }
                return Err(e);
            },
        }
        i += 1;
    }
    assert(raw@.take(i as int) =~= raw@);
    Ok(levels)
}

/// An error among the first `n` levels is the error of the whole sequence.
proof fn lemma_first_error_extends(raw: Seq<(u64, u64)>, n: int)
    requires
        0 <= n <= raw.len(),
        first_error(raw.take(n)) is Some,
    ensures
        first_error(raw) == first_error(raw.take(n)),
    decreases raw.len() - n,
{
    if n < raw.len() {
        assert(raw.take(n + 1).drop_last() =~= raw.take(n));
        lemma_first_error_extends(raw, n + 1);
    } else {
        assert(raw.take(n) =~= raw);
    }
}

impl OrderSummary {
    /// Validates the encodings of a level's price and size. Where both are
    /// refused, the price is reported.
    pub fn from_bits(price_bits: u64, size_bits: u64) -> (r: Result<OrderSummary, BookError>)
        ensures
            match r {
                Ok(level) => level_error(price_bits, size_bits) is None && level@ == level_of(
                    price_bits,
                    size_bits,
                ),
                Err(e) => level_error(price_bits, size_bits) == Some(e),
            },
    {
        let price = match Price::from_bits(price_bits) {
            Ok(price) => price,
            Err(e) => {
                return Err(e);
            },
        };
        match Volume::from_bits(size_bits) {
            Ok(size) => Ok(OrderSummary { price, size }),
            Err(e) => Err(e),
        }
    }
}

/// An update of one level of one instrument's book.
#[derive(Clone, Debug)]
pub struct PriceChange {
    /// The instrument that the update is for.
    pub asset_id: String,
    pub price: Price,
    pub size: Volume,
    pub side: Side,
}

/// What a feed sends, decoded and validated.
#[derive(Debug)]
pub enum Message {
    /// A snapshot: the whole book anew.
    Book { bids: Vec<OrderSummary>, asks: Vec<OrderSummary> },
    /// Updates of single levels, each for an instrument of its own.
    PriceChange { price_changes: Vec<PriceChange> },
    /// The price of the latest trade.
    LastTradePrice { price: Price },
    /// A change of the tick size: nothing for the book.
    TickSizeChange,
}

/// The book after one level update that names an instrument: the update
/// counts where it names `token`, and is passed over where it names another.
pub open spec fn after_change(book: BookView, token: Seq<char>, change: PriceChange) -> BookView {
    if change.asset_id@ == token {
        after_delta(book, change.side, change.price@, change.size.0)
    } else {
        book
    }
}

/// The book after a sequence of such updates, in order.
pub open spec fn after_changes(
    book: BookView,
    token: Seq<char>,
    changes: Seq<PriceChange>,
) -> BookView
    decreases changes.len(),
{
    if changes.len() == 0 {
        book
    } else {
        after_change(after_changes(book, token, changes.drop_last()), token, changes.last())
    }
}

/// The book of instrument `token` after a message.
pub open spec fn after_message(book: BookView, token: Seq<char>, message: Message) -> BookView {
    match message {
        Message::Book { bids, asks } => after_snapshot(
            book,
            level_pairs(bids@),
            level_pairs(asks@),
        ),
        Message::PriceChange { price_changes } => after_changes(book, token, price_changes@),
        Message::LastTradePrice { price } => BookView { last_traded_price: Some(price@), ..book },
        Message::TickSizeChange => book,
    }
}

/// An update that names another instrument leaves the book as it was.
pub proof fn lemma_other_instrument_is_ignored(
    book: BookView,
    token: Seq<char>,
    change: PriceChange,
)
    requires
        change.asset_id@ != token,
    ensures
        after_change(book, token, change) == book,
{
}

/// A message whose updates all name other instruments leaves the book as it
/// was.
pub proof fn lemma_other_instruments_are_ignored(
    book: BookView,
    token: Seq<char>,
    changes: Seq<PriceChange>,
)
    requires
        forall|i: int| 0 <= i < changes.len() ==> (#[trigger] changes[i]).asset_id@ != token,
    ensures
        after_changes(book, token, changes) == book,
    decreases changes.len(),
{
    if changes.len() > 0 {
        let before = changes.drop_last();
        assert forall|i: int| 0 <= i < before.len() implies (#[trigger] before[i]).asset_id@
            != token by {
            assert(before[i] == changes[i]);
        }
        lemma_other_instruments_are_ignored(book, token, before);
        assert(changes[changes.len() - 1].asset_id@ != token);
    }
}

/// What came off the wire, as far as the book is concerned.
#[derive(Debug)]
pub enum Frame {
    /// A text frame that decoded into a message.
    Update(Message),
    /// A text frame with a numeric field that was refused.
    Rejected(BookError),
    /// Anything but a text frame.
    Other,
}

/// What the reader of the feed does next.
#[derive(Clone, Copy, Debug, PartialEq, Eq, Structural)]
pub enum Action {
    /// Show the book, then read on.
    Render,
    /// Read on.
    Skip,
    /// End the session.
    Stop,
}

/// The book of one instrument, kept up to date from the messages of a feed
/// that may speak of other instruments too.
pub struct Tracker {
    token_id: String,
    book: Book,
}

impl View for Tracker {
    type V = BookView;

    closed spec fn view(&self) -> BookView {
        self.book@
    }
}

impl Tracker {
    /// The instrument that is tracked.
    pub closed spec fn token(&self) -> Seq<char> {
        self.token_id@
    }

    /// The tracker's invariant: its book is well formed.
    pub closed spec fn wf(&self) -> bool {
        self.book.wf()
    }

    /// A tracker with an empty book.
    pub fn new(token_id: String) -> (tracker: Tracker)
        ensures
            tracker.wf(),
            tracker.token() == token_id@,
            tracker@ == BookView::empty(),
    {
        Tracker { token_id, book: Book::new() }
    }

    /// A tracker whose book starts from the first message of a feed: from
    /// its levels where it is a snapshot, empty where it is anything else.
    pub fn with_snapshot(token_id: String, first: &Message) -> (tracker: Tracker)
        ensures
            tracker.wf(),
            tracker.token() == token_id@,
            tracker@ == (match *first {
                Message::Book { bids, asks } => after_snapshot(
                    BookView::empty(),
                    level_pairs(bids@),
                    level_pairs(asks@),
                ),
                _ => BookView::empty(),
            }),
    {
        let mut book = Book::new();
        if let Message::Book { bids, asks } = first {
            book.load(bids, asks);
        }
        Tracker { token_id, book }
    }

    /// The book.
    pub fn book(&self) -> (book: &Book)
        ensures
            book@ == self@,
            self.wf() ==> book.wf(),
    {
        &self.book
    }

    /// The instrument that is tracked.
    pub fn token_id(&self) -> (token_id: &String)
        ensures
            token_id@ == self.token(),
    {
        &self.token_id
    }

    /// Applies one level update where it names the tracked instrument, and
    /// passes over it where it names another. Says whether it was applied.
    pub fn apply_price_change(&mut self, change: &PriceChange) -> (applied: bool)
        requires
            old(self).wf(),
        ensures
            final(self).wf(),
            final(self).token() == old(self).token(),
            final(self)@ == after_change(old(self)@, old(self).token(), *change),
            applied <==> change.asset_id@ == old(self).token(),
    {
        if change.asset_id == self.token_id {
            self.book.set_one(change.side, change.price, change.size);
            true
        } else {
            false
        }
    }

    /// Applies a message to the book.
    pub fn apply(&mut self, message: Message)
        requires
            old(self).wf(),
        ensures
            final(self).wf(),
            final(self).token() == old(self).token(),
            final(self)@ == after_message(old(self)@, old(self).token(), message),
    {
        match message {
            Message::Book { bids, asks } => {
                self.book.set_all(bids, asks);
            },
            Message::PriceChange { price_changes } => {
                let mut i: usize = 0;
                while i < price_changes.len()
                    invariant
                        self.wf(),
                        i <= price_changes.len(),
                        self.token() == old(self).token(),
                        self@ == after_changes(
                            old(self)@,
                            old(self).token(),
                            price_changes@.take(i as int),
                        ),
                    decreases price_changes.len() - i,
                {
                    proof {
                        let changes = price_changes@;
                        assert(changes.take(i + 1).drop_last() =~= changes.take(i as int));
                        assert(changes.take(i + 1).last() == changes[i as int]);
                    }
                    let _ = self.apply_price_change(&price_changes[i]);
                    i += 1;
                }
                assert(price_changes@.take(i as int) =~= price_changes@);
            },
            Message::LastTradePrice { price } => {
                self.book.set_last_traded_price(price);
            },
            Message::TickSizeChange => {},
        }
    }

    /// Takes in what came off the wire and says what to do next. A message
    /// is applied and the book shown; a refused message leaves the book as
    /// it was and the session goes on; anything but text ends the session.
    pub fn on_frame(&mut self, frame: Frame) -> (action: Action)
        requires
            old(self).wf(),
        ensures
            final(self).wf(),
            final(self).token() == old(self).token(),
            match frame {
                Frame::Update(message) => action == Action::Render && final(self)@
                    == after_message(old(self)@, old(self).token(), message),
                Frame::Rejected(_) => action == Action::Skip && final(self)@ == old(self)@,
                Frame::Other => action == Action::Stop && final(self)@ == old(self)@,
            },
    {
        match frame {
            Frame::Update(message) => {
                self.apply(message);
                Action::Render
            },
            Frame::Rejected(_) => Action::Skip,
            Frame::Other => Action::Stop,
        }
    }
}

} // verus!

use tradyman::book::Book;
use tradyman::error::BookError;
use tradyman::polymarket::OrderSummary;
use tradyman::types::{Price, Side, Volume};

fn price(value: f64) -> Price {
    Price::from_bits(value.to_bits()).unwrap()
}

fn level(value: f64, size: usize) -> OrderSummary {
    OrderSummary { price: price(value), size: Volume(size) }
}

fn raw(value: f64, size: f64) -> (u64, u64) {
    (value.to_bits(), size.to_bits())
}

fn snapshot_book() -> Book {
    let mut book = Book::new();
    book.set_all(
        vec![level(100.00, 5), level(99.50, 3)],
        vec![level(100.50, 4), level(101.00, 2)],
    );
    book
}

#[test]
fn empty_book_has_no_best_levels() {
    let book = Book::new();
    assert_eq!(book.best_bid(), None);
    assert_eq!(book.best_ask(), None);
    assert_eq!(book.last_traded_price(), None);
    assert!(book.levels(Side::Buy).is_empty());
    assert!(book.levels(Side::Sell).is_empty());
}

#[test]
fn default_book_is_empty() {
    let book = Book::default();
    assert_eq!(book.best_bid(), None);
    assert_eq!(book.best_ask(), None);
    assert_eq!(book.last_traded_price(), None);
}

#[test]
fn empty_book_has_an_empty_top() {
    let book = Book::new();
    let top = book.top_n(10);
    assert_eq!(top.asks, vec![]);
    assert_eq!(top.bids, vec![]);
    assert_eq!(top.max_volume, None);
}

#[test]
fn snapshot_sets_best_bid_and_ask() {
    let book = snapshot_book();
    assert_eq!(book.best_bid(), Some(level(100.00, 5)));
    assert_eq!(book.best_ask(), Some(level(100.50, 4)));
}

#[test]
fn removing_the_best_bid_promotes_the_next() {
    let mut book = snapshot_book();
    book.set_one(Side::Buy, price(100.00), Volume(0));
    assert_eq!(book.best_bid(), Some(level(99.50, 3)));
    assert_eq!(book.best_ask(), Some(level(100.50, 4)));
}

#[test]
fn farther_ask_stays_out_of_the_top() {
    let mut book = snapshot_book();
    book.set_one(Side::Buy, price(100.00), Volume(0));
    book.set_one(Side::Sell, price(102.00), Volume(7));
    assert_eq!(book.best_ask(), Some(level(100.50, 4)));
    let top = book.top_n(2);
    assert_eq!(top.asks, vec![level(100.50, 4), level(101.00, 2)]);
    assert_eq!(top.bids, vec![level(99.50, 3)]);
    assert_eq!(top.max_volume, Some(Volume(4)));
    assert_eq!(book.levels(Side::Sell).get(price(102.00)), Some(Volume(7)));
}

#[test]
fn best_bid_is_the_highest_and_best_ask_the_lowest() {
    let mut book = Book::new();
    book.set_all(
        vec![level(3.0, 1), level(7.5, 2), level(0.25, 3), level(7.25, 4)],
        vec![level(9.0, 5), level(8.0, 6), level(12.0, 7), level(8.5, 8)],
    );
    assert_eq!(book.best_bid(), Some(level(7.5, 2)));
    assert_eq!(book.best_ask(), Some(level(8.0, 6)));
}

#[test]
fn snapshot_discards_what_was_there() {
    let mut book = snapshot_book();
    book.set_last_traded_price(price(100.25));
    book.set_all(vec![level(50.0, 1)], vec![level(51.0, 2)]);
    assert_eq!(book.levels(Side::Buy).len(), 1);
    assert_eq!(book.levels(Side::Sell).len(), 1);
    assert_eq!(book.best_bid(), Some(level(50.0, 1)));
    assert_eq!(book.best_ask(), Some(level(51.0, 2)));
    assert_eq!(book.levels(Side::Buy).get(price(100.00)), None);
    assert_eq!(book.last_traded_price(), Some(price(100.25)));
}

#[test]
fn empty_snapshot_empties_the_book() {
    let mut book = snapshot_book();
    book.set_all(vec![], vec![]);
    assert_eq!(book.best_bid(), None);
    assert_eq!(book.best_ask(), None);
    assert_eq!(book.top_n(5).max_volume, None);
}

#[test]
fn later_duplicate_in_a_snapshot_wins() {
    let mut book = Book::new();
    book.set_all(
        vec![level(10.0, 1), level(10.0, 9)],
        vec![level(11.0, 4), level(12.0, 5), level(11.0, 6)],
    );
    assert_eq!(book.levels(Side::Buy).len(), 1);
    assert_eq!(book.best_bid(), Some(level(10.0, 9)));
    assert_eq!(book.levels(Side::Sell).len(), 2);
    assert_eq!(book.best_ask(), Some(level(11.0, 6)));
}

#[test]
fn delta_of_volume_zero_leaves_no_level() {
    let mut book = Book::new();
    book.set_one(Side::Sell, price(12.0), Volume(0));
    assert_eq!(book.best_ask(), None);
    assert!(book.levels(Side::Sell).is_empty());
    book.set_one(Side::Sell, price(12.0), Volume(3));
    book.set_one(Side::Sell, price(12.0), Volume(0));
    assert_eq!(book.levels(Side::Sell).get(price(12.0)), None);
    assert!(book.levels(Side::Sell).is_empty());
}

#[test]
fn snapshot_entry_of_volume_zero_leaves_no_level() {
    let mut book = Book::new();
    book.set_all(
        vec![level(10.0, 0), level(9.0, 2)],
        vec![level(11.0, 3), level(12.0, 1), level(11.0, 0)],
    );
    assert_eq!(book.levels(Side::Buy).len(), 1);
    assert_eq!(book.levels(Side::Buy).get(price(10.0)), None);
    assert_eq!(book.best_bid(), Some(level(9.0, 2)));
    assert_eq!(book.levels(Side::Sell).len(), 1);
    assert_eq!(book.best_ask(), Some(level(12.0, 1)));
    assert_eq!(book.top_n(5).max_volume, Some(Volume(2)));
}

#[test]
fn removal_is_idempotent() {
    let mut book = snapshot_book();
    book.set_one(Side::Sell, price(100.50), Volume(0));
    assert_eq!(book.levels(Side::Sell).get(price(100.50)), None);
    let once = book.top_n(10);
    book.set_one(Side::Sell, price(100.50), Volume(0));
    let twice = book.top_n(10);
    assert_eq!(once.asks, vec![level(101.00, 2)]);
    assert_eq!(once.asks, twice.asks);
    assert_eq!(once.bids, twice.bids);
    assert_eq!(once.max_volume, twice.max_volume);
}

#[test]
fn same_delta_twice_is_the_delta_once() {
    let mut book = snapshot_book();
    book.set_one(Side::Buy, price(99.75), Volume(8));
    let once = book.top_n(10);
    book.set_one(Side::Buy, price(99.75), Volume(8));
    let twice = book.top_n(10);
    assert_eq!(once.bids, vec![level(100.00, 5), level(99.75, 8), level(99.50, 3)]);
    assert_eq!(once.bids, twice.bids);
    assert_eq!(once.asks, twice.asks);
    assert_eq!(once.max_volume, Some(Volume(8)));
    assert_eq!(twice.max_volume, Some(Volume(8)));
}

#[test]
fn delta_overwrites_the_volume_of_a_level() {
    let mut book = snapshot_book();
    book.set_one(Side::Buy, price(100.00), Volume(11));
    assert_eq!(book.best_bid(), Some(level(100.00, 11)));
    assert_eq!(book.levels(Side::Buy).len(), 2);
}

#[test]
fn delta_touches_one_side_only() {
    let mut book = snapshot_book();
    book.set_one(Side::Buy, price(100.50), Volume(1));
    assert_eq!(book.best_bid(), Some(level(100.50, 1)));
    assert_eq!(book.best_ask(), Some(level(100.50, 4)));
    assert_eq!(book.levels(Side::Sell).len(), 2);
}

#[test]
fn crossed_book_is_not_refused() {
    let mut book = Book::new();
    book.set_one(Side::Buy, price(105.0), Volume(1));
    book.set_one(Side::Sell, price(95.0), Volume(2));
    assert_eq!(book.best_bid(), Some(level(105.0, 1)));
    assert_eq!(book.best_ask(), Some(level(95.0, 2)));
}

#[test]
fn last_traded_price_is_overwritten() {
    let mut book = Book::new();
    book.set_last_traded_price(price(0.48));
    assert_eq!(book.last_traded_price(), Some(price(0.48)));
    book.set_last_traded_price(price(0.47));
    assert_eq!(book.last_traded_price(), Some(price(0.47)));
    assert_eq!(book.best_bid(), None);
}

#[test]
fn top_lists_each_side_from_the_best_outward() {
    let mut book = Book::new();
    book.set_all(
        vec![level(1.0, 10), level(3.0, 30), level(2.0, 20), level(4.0, 5)],
        vec![level(8.0, 7), level(6.0, 40), level(7.0, 2), level(5.0, 1)],
    );
    let top = book.top_n(3);
    assert_eq!(top.bids, vec![level(4.0, 5), level(3.0, 30), level(2.0, 20)]);
    assert_eq!(top.asks, vec![level(5.0, 1), level(6.0, 40), level(7.0, 2)]);
    assert_eq!(top.max_volume, Some(Volume(40)));
}

#[test]
fn top_of_more_than_there_is() {
    let book = snapshot_book();
    let top = book.top_n(10);
    assert_eq!(top.bids, vec![level(100.00, 5), level(99.50, 3)]);
    assert_eq!(top.asks, vec![level(100.50, 4), level(101.00, 2)]);
    assert_eq!(top.max_volume, Some(Volume(5)));
}

#[test]
fn top_of_nothing() {
    let book = snapshot_book();
    let top = book.top_n(0);
    assert_eq!(top.bids, vec![]);
    assert_eq!(top.asks, vec![]);
    assert_eq!(top.max_volume, None);
}

#[test]
fn max_volume_counts_only_what_is_listed() {
    let mut book = Book::new();
    book.set_all(
        vec![level(10.0, 1), level(9.0, 100)],
        vec![level(11.0, 2), level(12.0, 200)],
    );
    assert_eq!(book.top_n(1).max_volume, Some(Volume(2)));
    assert_eq!(book.top_n(2).max_volume, Some(Volume(200)));
}

#[test]
fn max_volume_of_one_side() {
    let mut book = Book::new();
    book.set_one(Side::Buy, price(10.0), Volume(6));
    let top = book.top_n(10);
    assert_eq!(top.asks, vec![]);
    assert_eq!(top.max_volume, Some(Volume(6)));
}

#[test]
fn top_does_not_change_the_book() {
    let book = snapshot_book();
    let first = book.top_n(1);
    let second = book.top_n(1);
    assert_eq!(first.bids, second.bids);
    assert_eq!(first.asks, second.asks);
    assert_eq!(book.levels(Side::Buy).len(), 2);
    assert_eq!(book.levels(Side::Sell).len(), 2);
}

#[test]
fn encoded_delta_is_applied() {
    let mut book = Book::new();
    assert_eq!(book.apply_delta(Side::Buy, 100.0f64.to_bits(), 5.9f64.to_bits()), Ok(()));
    assert_eq!(book.best_bid(), Some(level(100.0, 5)));
    assert_eq!(book.apply_delta(Side::Buy, 100.0f64.to_bits(), 0.0f64.to_bits()), Ok(()));
    assert_eq!(book.best_bid(), None);
}

#[test]
fn delta_of_less_than_one_unit_removes_the_level() {
    let mut book = snapshot_book();
    assert_eq!(book.apply_delta(Side::Buy, 100.0f64.to_bits(), 0.4f64.to_bits()), Ok(()));
    assert_eq!(book.best_bid(), Some(level(99.50, 3)));
}

#[test]
fn refused_delta_leaves_the_book() {
    let mut book = snapshot_book();
    let nan = f64::NAN.to_bits();
    let one = 1.0f64.to_bits();
    assert_eq!(book.apply_delta(Side::Buy, nan, one), Err(BookError::InvalidPrice));
    assert_eq!(
        book.apply_delta(Side::Buy, (-100.0f64).to_bits(), one),
        Err(BookError::InvalidPrice)
    );
    assert_eq!(
        book.apply_delta(Side::Sell, 100.5f64.to_bits(), nan),
        Err(BookError::InvalidVolume)
    );
    assert_eq!(
        book.apply_delta(Side::Sell, 100.5f64.to_bits(), (-4.0f64).to_bits()),
        Err(BookError::InvalidVolume)
    );
    assert_eq!(book.apply_delta(Side::Sell, nan, nan), Err(BookError::InvalidPrice));
    let top = book.top_n(10);
    assert_eq!(top.bids, vec![level(100.00, 5), level(99.50, 3)]);
    assert_eq!(top.asks, vec![level(100.50, 4), level(101.00, 2)]);
}

#[test]
fn encoded_snapshot_replaces_the_book() {
    let mut book = snapshot_book();
    let bids = vec![raw(50.0, 1.0), raw(49.0, 2.5)];
    let asks = vec![raw(51.0, 3.0)];
    assert_eq!(book.replace_snapshot(&bids, &asks), Ok(()));
    let top = book.top_n(10);
    assert_eq!(top.bids, vec![level(50.0, 1), level(49.0, 2)]);
    assert_eq!(top.asks, vec![level(51.0, 3)]);
}

#[test]
fn refused_snapshot_leaves_the_book() {
    let mut book = snapshot_book();
    book.set_last_traded_price(price(100.25));
    let good = vec![raw(50.0, 1.0)];
    let bad_price = vec![raw(51.0, 1.0), raw(f64::INFINITY, 1.0)];
    let bad_size = vec![raw(51.0, -1.0)];
    assert_eq!(book.replace_snapshot(&good, &bad_price), Err(BookError::InvalidPrice));
    assert_eq!(book.replace_snapshot(&bad_size, &good), Err(BookError::InvalidVolume));
    assert_eq!(book.replace_snapshot(&bad_size, &bad_price), Err(BookError::InvalidVolume));
    assert_eq!(book.replace_snapshot(&bad_price, &bad_size), Err(BookError::InvalidPrice));
    let top = book.top_n(10);
    assert_eq!(top.bids, vec![level(100.00, 5), level(99.50, 3)]);
    assert_eq!(top.asks, vec![level(100.50, 4), level(101.00, 2)]);
    assert_eq!(book.last_traded_price(), Some(price(100.25)));
}

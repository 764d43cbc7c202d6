use tradyman::error::BookError;
use tradyman::polymarket::{Action, Frame, Message, OrderSummary, PriceChange, Tracker};
use tradyman::types::{Price, Side, Volume};

fn price(value: f64) -> Price {
    Price::from_bits(value.to_bits()).unwrap()
}

fn level(value: f64, size: usize) -> OrderSummary {
    OrderSummary { price: price(value), size: Volume(size) }
}

fn change(asset_id: &str, side: Side, value: f64, size: usize) -> PriceChange {
    PriceChange { asset_id: asset_id.to_string(), price: price(value), size: Volume(size), side }
}

fn snapshot() -> Message {
    Message::Book {
        bids: vec![level(0.48, 5), level(0.47, 3)],
        asks: vec![level(0.52, 4), level(0.53, 2)],
    }
}

fn tracker() -> Tracker {
    Tracker::with_snapshot("token".to_string(), &snapshot())
}

#[test]
fn new_tracker_has_an_empty_book() {
    let tracker = Tracker::new("token".to_string());
    assert_eq!(tracker.token_id(), "token");
    assert_eq!(tracker.book().best_bid(), None);
    assert_eq!(tracker.book().best_ask(), None);
    assert_eq!(tracker.book().last_traded_price(), None);
}

#[test]
fn first_snapshot_fills_the_book() {
    let tracker = tracker();
    assert_eq!(tracker.token_id(), "token");
    assert_eq!(tracker.book().best_bid(), Some(level(0.48, 5)));
    assert_eq!(tracker.book().best_ask(), Some(level(0.52, 4)));
    assert_eq!(tracker.book().levels(Side::Buy).len(), 2);
    assert_eq!(tracker.book().levels(Side::Sell).len(), 2);
}

#[test]
fn first_message_that_is_no_snapshot_is_passed_over() {
    let first = Message::PriceChange { price_changes: vec![change("token", Side::Buy, 0.4, 1)] };
    let tracker = Tracker::with_snapshot("token".to_string(), &first);
    assert_eq!(tracker.book().best_bid(), None);
    let tracker = Tracker::with_snapshot(
        "token".to_string(),
        &Message::LastTradePrice { price: price(0.5) },
    );
    assert_eq!(tracker.book().last_traded_price(), None);
}

#[test]
fn first_snapshot_is_a_snapshot_like_any_other() {
    let first = Message::Book {
        bids: vec![level(0.48, 1), level(0.47, 3), level(0.48, 6)],
        asks: vec![level(0.52, 4), level(0.53, 0)],
    };
    let tracker = Tracker::with_snapshot("token".to_string(), &first);
    assert_eq!(tracker.book().best_bid(), Some(level(0.48, 6)));
    assert_eq!(tracker.book().levels(Side::Buy).len(), 2);
    assert_eq!(tracker.book().best_ask(), Some(level(0.52, 4)));
    assert_eq!(tracker.book().levels(Side::Sell).len(), 1);
}

#[test]
fn snapshot_message_replaces_the_book() {
    let mut tracker = tracker();
    tracker.apply(Message::Book { bids: vec![level(0.1, 1)], asks: vec![] });
    assert_eq!(tracker.book().best_bid(), Some(level(0.1, 1)));
    assert_eq!(tracker.book().levels(Side::Buy).len(), 1);
    assert_eq!(tracker.book().best_ask(), None);
}

#[test]
fn price_change_for_the_tracked_instrument_is_applied() {
    let mut tracker = tracker();
    assert!(tracker.apply_price_change(&change("token", Side::Buy, 0.49, 9)));
    assert_eq!(tracker.book().best_bid(), Some(level(0.49, 9)));
    assert!(tracker.apply_price_change(&change("token", Side::Buy, 0.49, 0)));
    assert_eq!(tracker.book().best_bid(), Some(level(0.48, 5)));
}

#[test]
fn price_change_for_another_instrument_is_ignored() {
    let mut tracker = tracker();
    assert!(!tracker.apply_price_change(&change("other", Side::Buy, 0.49, 9)));
    assert!(!tracker.apply_price_change(&change("other", Side::Sell, 0.52, 0)));
    assert!(!tracker.apply_price_change(&change("", Side::Sell, 0.51, 1)));
    assert!(!tracker.apply_price_change(&change("token ", Side::Sell, 0.51, 1)));
    let top = tracker.book().top_n(10);
    assert_eq!(top.bids, vec![level(0.48, 5), level(0.47, 3)]);
    assert_eq!(top.asks, vec![level(0.52, 4), level(0.53, 2)]);
    assert_eq!(top.max_volume, Some(Volume(5)));
    assert_eq!(tracker.book().last_traded_price(), None);
}

#[test]
fn message_applies_its_changes_in_order() {
    let mut tracker = tracker();
    tracker.apply(Message::PriceChange {
        price_changes: vec![
            change("token", Side::Sell, 0.51, 7),
            change("other", Side::Sell, 0.50, 8),
            change("token", Side::Sell, 0.51, 6),
            change("token", Side::Buy, 0.48, 0),
        ],
    });
    assert_eq!(tracker.book().best_ask(), Some(level(0.51, 6)));
    assert_eq!(tracker.book().best_bid(), Some(level(0.47, 3)));
    assert_eq!(tracker.book().levels(Side::Sell).len(), 3);
}

#[test]
fn message_of_other_instruments_leaves_the_book() {
    let mut tracker = tracker();
    tracker.apply(Message::PriceChange {
        price_changes: vec![
            change("other", Side::Sell, 0.51, 7),
            change("another", Side::Buy, 0.48, 0),
        ],
    });
    let top = tracker.book().top_n(10);
    assert_eq!(top.bids, vec![level(0.48, 5), level(0.47, 3)]);
    assert_eq!(top.asks, vec![level(0.52, 4), level(0.53, 2)]);
}

#[test]
fn last_trade_price_message_sets_the_price() {
    let mut tracker = tracker();
    tracker.apply(Message::LastTradePrice { price: price(0.5) });
    assert_eq!(tracker.book().last_traded_price(), Some(price(0.5)));
    assert_eq!(tracker.book().best_bid(), Some(level(0.48, 5)));
}

#[test]
fn tick_size_change_changes_nothing() {
    let mut tracker = tracker();
    tracker.apply(Message::LastTradePrice { price: price(0.5) });
    tracker.apply(Message::TickSizeChange);
    let top = tracker.book().top_n(10);
    assert_eq!(top.bids, vec![level(0.48, 5), level(0.47, 3)]);
    assert_eq!(top.asks, vec![level(0.52, 4), level(0.53, 2)]);
    assert_eq!(tracker.book().last_traded_price(), Some(price(0.5)));
}

#[test]
fn update_frame_is_applied_and_shown() {
    let mut tracker = tracker();
    let action = tracker.on_frame(Frame::Update(Message::PriceChange {
        price_changes: vec![change("token", Side::Buy, 0.49, 9)],
    }));
    assert_eq!(action, Action::Render);
    assert_eq!(tracker.book().best_bid(), Some(level(0.49, 9)));
    assert_eq!(tracker.on_frame(Frame::Update(Message::TickSizeChange)), Action::Render);
}

#[test]
fn rejected_frame_is_skipped() {
    let mut tracker = tracker();
    assert_eq!(tracker.on_frame(Frame::Rejected(BookError::InvalidPrice)), Action::Skip);
    assert_eq!(tracker.on_frame(Frame::Rejected(BookError::InvalidVolume)), Action::Skip);
    assert_eq!(tracker.book().best_bid(), Some(level(0.48, 5)));
    assert_eq!(tracker.book().best_ask(), Some(level(0.52, 4)));
}

#[test]
fn other_frame_ends_the_session() {
    let mut tracker = tracker();
    assert_eq!(tracker.on_frame(Frame::Other), Action::Stop);
    assert_eq!(tracker.book().best_bid(), Some(level(0.48, 5)));
    assert_eq!(tracker.book().best_ask(), Some(level(0.52, 4)));
}

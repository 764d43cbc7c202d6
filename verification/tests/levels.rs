use tradyman::levels::PriceLevelMap;
use tradyman::polymarket::OrderSummary;
use tradyman::types::{Price, Side, Volume};

fn price(value: f64) -> Price {
    Price::from_bits(value.to_bits()).unwrap()
}

fn level(value: f64, size: usize) -> OrderSummary {
    OrderSummary { price: price(value), size: Volume(size) }
}

fn filled(side: Side) -> PriceLevelMap {
    let mut levels = PriceLevelMap::new(side);
    levels.upsert(price(2.0), Volume(20));
    levels.upsert(price(0.5), Volume(5));
    levels.upsert(price(3.0), Volume(30));
    levels.upsert(price(1.0), Volume(10));
    levels
}

#[test]
fn new_side_is_empty() {
    let levels = PriceLevelMap::new(Side::Buy);
    assert_eq!(levels.side(), Side::Buy);
    assert_eq!(levels.len(), 0);
    assert!(levels.is_empty());
    assert_eq!(levels.best(), None);
    assert_eq!(levels.best_outward(3), vec![]);
    assert_eq!(levels.ascending(), vec![]);
    assert_eq!(levels.descending(), vec![]);
}

#[test]
fn upsert_inserts_and_overwrites() {
    let mut levels = PriceLevelMap::new(Side::Sell);
    levels.upsert(price(1.0), Volume(10));
    assert_eq!(levels.get(price(1.0)), Some(Volume(10)));
    assert_eq!(levels.len(), 1);
    levels.upsert(price(1.0), Volume(11));
    assert_eq!(levels.get(price(1.0)), Some(Volume(11)));
    assert_eq!(levels.len(), 1);
    assert!(!levels.is_empty());
}

#[test]
fn remove_deletes_or_does_nothing() {
    let mut levels = filled(Side::Sell);
    levels.remove(price(2.0));
    assert_eq!(levels.get(price(2.0)), None);
    assert_eq!(levels.len(), 3);
    levels.remove(price(2.0));
    levels.remove(price(77.0));
    assert_eq!(levels.len(), 3);
}

#[test]
fn clear_takes_everything() {
    let mut levels = filled(Side::Buy);
    levels.clear();
    assert!(levels.is_empty());
    assert_eq!(levels.side(), Side::Buy);
    assert_eq!(levels.get(price(2.0)), None);
}

#[test]
fn asks_are_walked_upward() {
    let levels = filled(Side::Sell);
    assert_eq!(levels.best(), Some(level(0.5, 5)));
    assert_eq!(levels.best_outward(2), vec![level(0.5, 5), level(1.0, 10)]);
    assert_eq!(
        levels.best_outward(9),
        vec![level(0.5, 5), level(1.0, 10), level(2.0, 20), level(3.0, 30)]
    );
}

#[test]
fn bids_are_walked_downward() {
    let levels = filled(Side::Buy);
    assert_eq!(levels.best(), Some(level(3.0, 30)));
    assert_eq!(levels.best_outward(2), vec![level(3.0, 30), level(2.0, 20)]);
    assert_eq!(
        levels.best_outward(4),
        vec![level(3.0, 30), level(2.0, 20), level(1.0, 10), level(0.5, 5)]
    );
}

#[test]
fn either_side_lists_in_both_orders() {
    let up = vec![level(0.5, 5), level(1.0, 10), level(2.0, 20), level(3.0, 30)];
    let down = vec![level(3.0, 30), level(2.0, 20), level(1.0, 10), level(0.5, 5)];
    for side in [Side::Buy, Side::Sell] {
        let levels = filled(side);
        assert_eq!(levels.ascending(), up);
        assert_eq!(levels.descending(), down);
    }
}

#[test]
fn extreme_prices_keep_their_order() {
    for side in [Side::Buy, Side::Sell] {
        let mut levels = PriceLevelMap::new(side);
        levels.upsert(price(f64::MAX), Volume(1));
        levels.upsert(price(0.0), Volume(2));
        levels.upsert(price(5e-324), Volume(3));
        assert_eq!(
            levels.ascending(),
            vec![level(0.0, 2), level(5e-324, 3), level(f64::MAX, 1)]
        );
    }
}

#[test]
fn volume_zero_can_be_held_by_a_side() {
    let mut levels = PriceLevelMap::new(Side::Sell);
    levels.upsert(price(1.0), Volume(0));
    assert_eq!(levels.get(price(1.0)), Some(Volume(0)));
    assert_eq!(levels.best(), Some(level(1.0, 0)));
}

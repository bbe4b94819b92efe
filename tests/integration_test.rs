use vanilla_orderbook::orderbook::OrderBook;
use vanilla_orderbook::prelude::{PriceLevel, Side};

fn setup() -> OrderBook {
    OrderBook::default()
}

#[test]
fn test_empty_book_placement() {
    let mut book = setup();
    let trades = book.place_order(Side::Buy, 100, 10, 1);
    assert!(trades.is_empty());
    assert_eq!(book.best_buy(), Some((100, 10)));
    assert_eq!(book.best_sell(), None);
}

#[test]
fn test_no_match_buy_order() {
    let mut book = setup();
    book.place_order(Side::Sell, 105, 5, 101);
    let trades = book.place_order(Side::Buy, 100, 10, 2);
    assert!(trades.is_empty());
    assert_eq!(book.best_buy(), Some((100, 10)));
    assert_eq!(book.best_sell(), Some((105, 5)));
}

#[test]
fn test_no_match_sell_order() {
    let mut book = setup();
    book.place_order(Side::Buy, 95, 5, 101);
    let trades = book.place_order(Side::Sell, 100, 10, 2);
    assert!(trades.is_empty());
    assert_eq!(book.best_buy(), Some((95, 5)));
    assert_eq!(book.best_sell(), Some((100, 10)));
}

#[test]
fn test_full_taker_fill() {
    let mut book = setup();
    book.place_order(Side::Sell, 100, 10, 101);
    let trades = book.place_order(Side::Buy, 105, 15, 2);
    assert_eq!(trades.len(), 1);
    assert_eq!(trades[0].quantity, 10);
    assert_eq!(trades[0].taker_id, 2);
    assert_eq!(trades[0].maker_id, 101);
    assert_eq!(book.best_buy(), Some((105, 5)));
    assert_eq!(book.best_sell(), None);
}

#[test]
fn test_full_maker_fill() {
    let mut book = setup();
    book.place_order(Side::Sell, 100, 15, 101);
    let trades = book.place_order(Side::Buy, 100, 10, 2);
    assert_eq!(trades.len(), 1);
    assert_eq!(trades[0].quantity, 10);
    assert_eq!(book.best_sell(), Some((100, 5)));
    assert_eq!(book.best_buy(), None);
}

#[test]
fn test_partial_fill_buy_matches_one_sell() {
    let mut book = setup();
    book.place_order(Side::Sell, 100, 10, 101);
    let trades = book.place_order(Side::Buy, 100, 5, 2);
    assert_eq!(trades.len(), 1);
    assert_eq!(trades[0].quantity, 5);
    assert_eq!(trades[0].taker_id, 2);
    assert_eq!(trades[0].maker_id, 101);
    assert_eq!(book.best_buy(), None);
    assert_eq!(book.best_sell(), Some((100, 5)));
}

#[test]
fn test_partial_fill_sell_matches_one_buy() {
    let mut book = setup();
    book.place_order(Side::Buy, 100, 10, 101);
    let trades = book.place_order(Side::Sell, 100, 5, 2);
    assert_eq!(trades.len(), 1);
    assert_eq!(trades[0].quantity, 5);
    assert_eq!(trades[0].taker_id, 2);
    assert_eq!(trades[0].maker_id, 101);
    assert_eq!(book.best_sell(), None);
    assert_eq!(book.best_buy(), Some((100, 5)));
}

#[test]
fn test_buy_price_priority() {
    let mut book = setup();
    book.place_order(Side::Sell, 99, 5, 101);
    book.place_order(Side::Sell, 100, 5, 102);
    let trades = book.place_order(Side::Buy, 100, 10, 2);
    assert_eq!(trades.len(), 2);
    assert_eq!(trades[0].price, 99);
    assert_eq!(trades[0].maker_id, 101);
    assert_eq!(trades[0].quantity, 5);
    assert_eq!(trades[1].price, 100);
    assert_eq!(trades[1].maker_id, 102);
    assert_eq!(trades[1].quantity, 5);
    assert!(book.is_buy_side_empty());
    assert!(book.is_sell_side_empty());
}

#[test]
fn test_sell_price_priority() {
    let mut book = setup();
    book.place_order(Side::Buy, 101, 5, 101);
    book.place_order(Side::Buy, 100, 5, 102);
    let trades = book.place_order(Side::Sell, 100, 10, 2);
    assert_eq!(trades.len(), 2);
    assert_eq!(trades[0].price, 101);
    assert_eq!(trades[0].maker_id, 101);
    assert_eq!(trades[0].quantity, 5);
    assert_eq!(trades[1].price, 100);
    assert_eq!(trades[1].maker_id, 102);
    assert_eq!(trades[1].quantity, 5);
    assert!(book.is_buy_side_empty());
    assert!(book.is_sell_side_empty());
}

#[test]
fn test_time_priority_at_same_price() {
    let mut book = setup();
    book.place_order(Side::Sell, 100, 5, 101);
    book.place_order(Side::Sell, 100, 5, 102);
    let trades = book.place_order(Side::Buy, 100, 5, 2);
    assert_eq!(trades.len(), 1);
    assert_eq!(trades[0].maker_id, 101);
    assert_eq!(trades[0].quantity, 5);
    let remaining_orders = book.get_orders(&PriceLevel::new(100, Side::Sell)).unwrap();
    assert_eq!(remaining_orders.len(), 1);
    assert_eq!(remaining_orders[0].id, 102);
}

#[test]
fn test_large_order_spanning_multiple_levels() {
    let mut book = setup();
    book.place_order(Side::Sell, 100, 5, 101);
    book.place_order(Side::Sell, 101, 10, 102);
    book.place_order(Side::Sell, 102, 15, 103);
    let trades = book.place_order(Side::Buy, 105, 30, 2);
    assert_eq!(trades.len(), 3);
    assert_eq!(trades[0].price, 100);
    assert_eq!(trades[1].price, 101);
    assert_eq!(trades[2].price, 102);
    assert!(book.is_buy_side_empty());
    assert!(book.get_orders(&PriceLevel::new(105, Side::Buy)).is_none());
}

#[test]
fn test_zero_quantity_order() {
    let mut book = setup();
    let trades = book.place_order(Side::Buy, 100, 0, 1);
    assert!(trades.is_empty());
    assert_eq!(book.best_buy(), None);
    assert_eq!(book.best_sell(), None);
}

#[test]
fn test_market_cross() {
    let mut book = setup();
    book.place_order(Side::Sell, 99, 10, 101);
    book.place_order(Side::Buy, 100, 11, 102);
    let trades = book.place_order(Side::Sell, 98, 10, 2);
    assert_eq!(trades.len(), 1);
    assert_eq!(trades[0].price, 100);
    assert_eq!(trades[0].maker_id, 102);
    assert_eq!(trades[0].taker_id, 2);
}

use std::cmp::Ordering;

use vanilla_orderbook::orderbook::OrderBook;
use vanilla_orderbook::prelude::{PriceLevel, Side, Trade};

fn sum_quantities(trades: &[Trade]) -> u64 {
    trades.iter().map(|t| t.quantity).sum()
}

#[test]
fn sell_levels_inserted_out_of_order_fill_lowest_first() {
    let mut book = OrderBook::default();
    book.place_order(Side::Sell, 102, 1, 11);
    book.place_order(Side::Sell, 100, 1, 12);
    book.place_order(Side::Sell, 101, 1, 13);
    let trades = book.place_order(Side::Buy, 102, 3, 1);
    let prices: Vec<u64> = trades.iter().map(|t| t.price).collect();
    assert_eq!(prices, vec![100, 101, 102]);
    let makers: Vec<u64> = trades.iter().map(|t| t.maker_id).collect();
    assert_eq!(makers, vec![12, 13, 11]);
}

#[test]
fn buy_levels_inserted_out_of_order_fill_highest_first() {
    let mut book = OrderBook::default();
    book.place_order(Side::Buy, 98, 2, 11);
    book.place_order(Side::Buy, 100, 2, 12);
    book.place_order(Side::Buy, 99, 2, 13);
    let trades = book.place_order(Side::Sell, 99, 5, 1);
    let prices: Vec<u64> = trades.iter().map(|t| t.price).collect();
    assert_eq!(prices, vec![100, 99]);
    assert_eq!(book.best_sell(), Some((99, 1)));
    assert_eq!(book.best_buy(), Some((98, 2)));
}

#[test]
fn same_price_orders_fill_in_insertion_order() {
    let mut book = OrderBook::default();
    book.place_order(Side::Sell, 100, 3, 1);
    book.place_order(Side::Sell, 101, 3, 2);
    book.place_order(Side::Sell, 100, 3, 3);
    book.place_order(Side::Sell, 100, 3, 4);
    let trades = book.place_order(Side::Buy, 100, 8, 9);
    let makers: Vec<u64> = trades.iter().map(|t| t.maker_id).collect();
    assert_eq!(makers, vec![1, 3, 4]);
    let quantities: Vec<u64> = trades.iter().map(|t| t.quantity).collect();
    assert_eq!(quantities, vec![3, 3, 2]);
    let level = book.get_orders(&PriceLevel::new(100, Side::Sell)).unwrap();
    assert_eq!(level.len(), 1);
    assert_eq!(level[0].id, 4);
    assert_eq!(level[0].quantity, 1);
    assert_eq!(book.best_sell(), Some((100, 1)));
}

#[test]
fn traded_plus_resting_equals_submitted() {
    let mut book = OrderBook::default();
    book.place_order(Side::Sell, 100, 4, 1);
    book.place_order(Side::Sell, 101, 6, 2);
    book.place_order(Side::Sell, 103, 6, 3);
    let trades = book.place_order(Side::Buy, 102, 25, 9);
    assert_eq!(sum_quantities(&trades), 10);
    assert_eq!(book.best_buy(), Some((102, 15)));
    assert_eq!(sum_quantities(&trades) + 15, 25);
    assert_eq!(book.best_sell(), Some((103, 6)));
}

#[test]
fn emptied_level_is_removed() {
    let mut book = OrderBook::default();
    book.place_order(Side::Buy, 50, 2, 1);
    book.place_order(Side::Buy, 49, 2, 2);
    book.place_order(Side::Sell, 50, 2, 3);
    assert!(book.get_orders(&PriceLevel::new(50, Side::Buy)).is_none());
    assert_eq!(book.best_buy(), Some((49, 2)));
    book.place_order(Side::Sell, 0, 2, 4);
    assert!(book.is_buy_side_empty());
    assert!(book.get_orders(&PriceLevel::new(49, Side::Buy)).is_none());
    assert!(book.is_sell_side_empty());
}

#[test]
fn zero_quantity_leaves_busy_book_unchanged() {
    let mut book = OrderBook::default();
    book.place_order(Side::Buy, 99, 3, 1);
    book.place_order(Side::Sell, 101, 4, 2);
    let before = (book.best_buy(), book.best_sell());
    let trades = book.place_order(Side::Sell, 90, 0, 3);
    assert!(trades.is_empty());
    let trades = book.place_order(Side::Buy, 200, 0, 4);
    assert!(trades.is_empty());
    assert_eq!((book.best_buy(), book.best_sell()), before);
    assert!(!book.is_buy_side_empty());
    assert!(!book.is_sell_side_empty());
}

#[test]
fn crossed_book_sell_taker_hits_best_bid_first() {
    let mut book = OrderBook::default();
    book.place_order(Side::Sell, 99, 10, 101);
    book.place_order(Side::Buy, 100, 11, 102);
    assert_eq!(book.best_sell(), None);
    assert_eq!(book.best_buy(), Some((100, 1)));
}

#[test]
fn self_match_is_allowed() {
    let mut book = OrderBook::default();
    book.place_order(Side::Sell, 10, 5, 7);
    let trades = book.place_order(Side::Buy, 10, 5, 7);
    assert_eq!(trades.len(), 1);
    assert_eq!(trades[0].maker_id, 7);
    assert_eq!(trades[0].taker_id, 7);
}

#[test]
fn zero_price_is_a_real_price() {
    let mut book = OrderBook::default();
    book.place_order(Side::Sell, 0, 5, 1);
    let trades = book.place_order(Side::Buy, 0, 2, 2);
    assert_eq!(trades.len(), 1);
    assert_eq!(trades[0].price, 0);
    assert_eq!(book.best_sell(), Some((0, 3)));
}

#[test]
fn trade_price_is_the_makers() {
    let mut book = OrderBook::default();
    book.place_order(Side::Buy, 120, 5, 1);
    let trades = book.place_order(Side::Sell, 80, 5, 2);
    assert_eq!(trades[0].price, 120);
}

#[test]
fn largest_values_do_not_overflow() {
    let mut book = OrderBook::default();
    book.place_order(Side::Sell, u64::MAX, u64::MAX, 1);
    let trades = book.place_order(Side::Buy, u64::MAX, u64::MAX, 2);
    assert_eq!(trades.len(), 1);
    assert_eq!(trades[0].quantity, u64::MAX);
    assert!(book.is_sell_side_empty());
    assert!(book.is_buy_side_empty());
}

#[test]
fn place_order_at_keeps_timestamp() {
    let mut book = OrderBook::default();
    book.place_order_at(Side::Buy, 10, 3, 1, 1234);
    book.place_order_at(Side::Buy, 10, 2, 2, 7);
    let level = book.get_orders(&PriceLevel::new(10, Side::Buy)).unwrap();
    assert_eq!(level.len(), 2);
    assert_eq!(level[0].timestamp, 1234);
    assert_eq!(level[1].timestamp, 7);
    assert_eq!(level[0].price, 10);
    assert_eq!(book.best_buy(), Some((10, 5)));
}

#[test]
fn place_order_stamps_with_clock() {
    let mut book = OrderBook::default();
    book.place_order(Side::Sell, 10, 3, 1);
    let level = book.get_orders(&PriceLevel::new(10, Side::Sell)).unwrap();
    assert!(level[0].timestamp > 0);
}

#[test]
fn get_orders_is_per_side() {
    let mut book = OrderBook::default();
    book.place_order(Side::Buy, 10, 3, 1);
    assert!(book.get_orders(&PriceLevel::new(10, Side::Sell)).is_none());
    assert!(book.get_orders(&PriceLevel::new(11, Side::Buy)).is_none());
    assert!(book.get_orders(&PriceLevel::new(10, Side::Buy)).is_some());
}

#[test]
fn price_level_ordering_is_best_first() {
    let a = PriceLevel::new(101, Side::Buy);
    let b = PriceLevel::new(100, Side::Buy);
    assert_eq!(a.cmp(&b), Ordering::Less);
    assert_eq!(b.cmp(&a), Ordering::Greater);
    assert_eq!(a.cmp(&a), Ordering::Equal);
    let c = PriceLevel::new(99, Side::Sell);
    let d = PriceLevel::new(100, Side::Sell);
    assert_eq!(c.cmp(&d), Ordering::Less);
    assert_eq!(d.cmp(&c), Ordering::Greater);
    assert_eq!(PriceLevel::new(5, Side::Sell), PriceLevel::new(5, Side::Sell));
    assert_ne!(PriceLevel::new(5, Side::Sell), PriceLevel::new(5, Side::Buy));
}

#[test]
fn price_level_operators_follow_side_ranking() {
    assert!(PriceLevel::new(101, Side::Buy) < PriceLevel::new(100, Side::Buy));
    assert!(PriceLevel::new(99, Side::Sell) < PriceLevel::new(100, Side::Sell));
    assert!(PriceLevel::new(100, Side::Sell) > PriceLevel::new(99, Side::Sell));
    assert_eq!(
        PriceLevel::new(7, Side::Buy).partial_cmp(&PriceLevel::new(7, Side::Buy)),
        Some(Ordering::Equal)
    );
}

#[test]
fn leftover_rests_at_back_of_its_price() {
    let mut book = OrderBook::default();
    book.place_order(Side::Sell, 101, 2, 9);
    let trades = book.place_order(Side::Buy, 101, 3, 1);
    assert_eq!(trades.len(), 1);
    assert_eq!(trades[0].quantity, 2);
    let trades = book.place_order(Side::Buy, 101, 4, 2);
    assert!(trades.is_empty());
    let level = book.get_orders(&PriceLevel::new(101, Side::Buy)).unwrap();
    assert_eq!(level.len(), 2);
    assert_eq!((level[0].id, level[0].quantity), (1, 1));
    assert_eq!((level[1].id, level[1].quantity), (2, 4));
    let trades = book.place_order(Side::Sell, 101, 3, 3);
    assert_eq!(trades.len(), 2);
    assert_eq!((trades[0].maker_id, trades[0].quantity), (1, 1));
    assert_eq!((trades[1].maker_id, trades[1].quantity), (2, 2));
    let level = book.get_orders(&PriceLevel::new(101, Side::Buy)).unwrap();
    assert_eq!(level.len(), 1);
    assert_eq!((level[0].id, level[0].quantity), (2, 2));
    assert_eq!(book.best_buy(), Some((101, 2)));
    assert_eq!(book.best_sell(), None);
}

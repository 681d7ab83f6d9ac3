use std::collections::HashMap;

use cex_zkp::decimal::Decimal;
use cex_zkp::order_book::OrderBook;
use cex_zkp::types::{Order, Side};

fn dec(mantissa: i64, scale: u32) -> Decimal {
    Decimal::new(mantissa, scale)
}

fn add(a: Decimal, b: Decimal) -> Decimal {
    a.checked_add(&b).unwrap()
}

/// A small deterministic generator for order streams.
struct Lcg(u64);

impl Lcg {
    fn next(&mut self) -> u64 {
        self.0 = self.0.wrapping_mul(6364136223846793005).wrapping_add(1442695040888963407);
        self.0 >> 33
    }
}

#[test]
fn matching_conserves_quantity_over_a_stream() {
    let mut rng = Lcg(7);
    let mut book = OrderBook::new();
    let mut total_initial = Decimal::zero();
    let mut total_traded = Decimal::zero();
    for id in 1..=200u64 {
        let side = if rng.next() % 2 == 0 { Side::Buy } else { Side::Sell };
        let price = dec(90 + (rng.next() % 21) as i64, 0);
        let amount = dec(1 + (rng.next() % 10) as i64, 0);
        let user = 1 + rng.next() % 3;
        total_initial = add(total_initial, amount);
        let trades = book.match_order(Order::new(id, user, "BTC_USDT", side, price, amount)).unwrap();
        for t in &trades {
            assert!(t.amount.mantissa() > 0);
            total_traded = add(total_traded, t.amount);
        }
    }
    let open = book.open_orders();
    let resting = open.iter().fold(Decimal::zero(), |acc, o| add(acc, o.remaining));
    assert_eq!(total_initial, add(add(total_traded, total_traded), resting));
    assert_eq!(book.len(), open.len());
}

#[test]
fn no_trade_pairs_orders_of_one_user() {
    let mut rng = Lcg(11);
    let mut book = OrderBook::new();
    let mut owner: HashMap<u64, u64> = HashMap::new();
    for id in 1..=150u64 {
        let side = if rng.next() % 2 == 0 { Side::Buy } else { Side::Sell };
        let price = dec(95 + (rng.next() % 11) as i64, 0);
        let amount = dec(1 + (rng.next() % 5) as i64, 0);
        let user = 1 + rng.next() % 2;
        owner.insert(id, user);
        let trades = book.match_order(Order::new(id, user, "BTC_USDT", side, price, amount)).unwrap();
        for t in &trades {
            assert_ne!(owner[&t.maker_order_id], owner[&t.taker_order_id]);
        }
    }
}

#[test]
fn buy_taker_trade_prices_never_improve_for_the_maker_side() {
    let mut book = OrderBook::new();
    book.add_order(Order::new(1, 2, "BTC_USDT", Side::Sell, dec(103, 0), dec(1, 0))).unwrap();
    book.add_order(Order::new(2, 2, "BTC_USDT", Side::Sell, dec(101, 0), dec(1, 0))).unwrap();
    book.add_order(Order::new(3, 3, "BTC_USDT", Side::Sell, dec(102, 0), dec(1, 0))).unwrap();
    book.add_order(Order::new(4, 3, "BTC_USDT", Side::Sell, dec(101, 0), dec(1, 0))).unwrap();
    let trades = book.match_order(Order::new(9, 1, "BTC_USDT", Side::Buy, dec(105, 0), dec(4, 0))).unwrap();
    let prices: Vec<i128> = trades.iter().map(|t| t.price.mantissa()).collect();
    assert_eq!(prices, vec![101, 101, 102, 103]);
    let makers: Vec<u64> = trades.iter().map(|t| t.maker_order_id).collect();
    assert_eq!(makers, vec![2, 4, 3, 1]);
}

#[test]
fn cancel_right_after_add_restores_the_book() {
    let mut book = OrderBook::new();
    book.add_order(Order::new(1, 1, "BTC_USDT", Side::Buy, dec(100, 0), dec(5, 0))).unwrap();
    book.add_order(Order::new(2, 1, "BTC_USDT", Side::Buy, dec(99, 0), dec(2, 0))).unwrap();
    book.add_order(Order::new(3, 2, "BTC_USDT", Side::Sell, dec(105, 0), dec(1, 0))).unwrap();
    let before_depth = book.depth_snapshot(10);
    let before_orders: Vec<u64> = book.open_orders().iter().map(|o| o.id).collect();

    let added = Order::new(4, 3, "BTC_USDT", Side::Buy, dec(100, 0), dec(125, 2));
    book.add_order(added.clone()).unwrap();
    let cancelled = book.cancel_order(4).unwrap();

    assert_eq!(cancelled.id, added.id);
    assert_eq!(cancelled.remaining, added.remaining);
    assert_eq!(cancelled.price, added.price);
    assert_eq!(book.depth_snapshot(10), before_depth);
    let after_orders: Vec<u64> = book.open_orders().iter().map(|o| o.id).collect();
    assert_eq!(after_orders, before_orders);
}

#[test]
fn depth_snapshot_lists_best_levels_first_with_totals() {
    let mut book = OrderBook::new();
    book.add_order(Order::new(1, 1, "BTC_USDT", Side::Buy, dec(100, 0), dec(5, 0))).unwrap();
    book.add_order(Order::new(2, 1, "BTC_USDT", Side::Buy, dec(100, 0), dec(25, 1))).unwrap();
    book.add_order(Order::new(3, 1, "BTC_USDT", Side::Buy, dec(98, 0), dec(1, 0))).unwrap();
    book.add_order(Order::new(4, 1, "BTC_USDT", Side::Buy, dec(99, 0), dec(1, 0))).unwrap();
    book.add_order(Order::new(5, 2, "BTC_USDT", Side::Sell, dec(102, 0), dec(3, 0))).unwrap();
    book.add_order(Order::new(6, 2, "BTC_USDT", Side::Sell, dec(101, 0), dec(4, 0))).unwrap();

    let (bids, asks) = book.depth_snapshot(2);
    assert_eq!(bids, vec![(dec(100, 0), dec(75, 1)), (dec(99, 0), dec(1, 0))]);
    assert_eq!(asks, vec![(dec(101, 0), dec(4, 0)), (dec(102, 0), dec(3, 0))]);

    let (all_bids, _) = book.depth_snapshot(100);
    assert_eq!(all_bids.len(), 3);
    let (no_bids, no_asks) = book.depth_snapshot(0);
    assert!(no_bids.is_empty() && no_asks.is_empty());
}

#[test]
fn open_orders_lists_bids_then_asks_in_priority_order() {
    let mut book = OrderBook::new();
    book.add_order(Order::new(1, 1, "BTC_USDT", Side::Sell, dec(102, 0), dec(1, 0))).unwrap();
    book.add_order(Order::new(2, 1, "BTC_USDT", Side::Buy, dec(99, 0), dec(1, 0))).unwrap();
    book.add_order(Order::new(3, 1, "BTC_USDT", Side::Sell, dec(101, 0), dec(1, 0))).unwrap();
    book.add_order(Order::new(4, 1, "BTC_USDT", Side::Buy, dec(100, 0), dec(1, 0))).unwrap();
    book.add_order(Order::new(5, 1, "BTC_USDT", Side::Buy, dec(100, 0), dec(2, 0))).unwrap();
    let ids: Vec<u64> = book.open_orders().iter().map(|o| o.id).collect();
    assert_eq!(ids, vec![4, 5, 2, 3, 1]);
}

#[test]
fn orders_at_missing_price_is_empty() {
    let mut book = OrderBook::new();
    book.add_order(Order::new(1, 1, "BTC_USDT", Side::Buy, dec(100, 0), dec(1, 0))).unwrap();
    assert!(book.orders_at_price(Side::Buy, dec(101, 0)).is_empty());
    assert!(book.orders_at_price(Side::Sell, dec(100, 0)).is_empty());
    assert_eq!(book.orders_at_price(Side::Buy, dec(1000, 1)).len(), 1);
}

#[test]
fn negative_amount_is_rejected_and_book_unchanged() {
    let mut book = OrderBook::new();
    let err = book.match_order(Order::new(1, 1, "BTC_USDT", Side::Buy, dec(100, 0), dec(-2, 0))).unwrap_err();
    assert_eq!(err, cex_zkp::types::EngineError::InvalidAmount(dec(-2, 0)));
    assert!(book.is_empty());
}

#[test]
fn duplicate_taker_id_is_rejected_by_match() {
    let mut book = OrderBook::new();
    book.add_order(Order::new(5, 1, "BTC_USDT", Side::Buy, dec(100, 0), dec(1, 0))).unwrap();
    let err = book.match_order(Order::new(5, 2, "BTC_USDT", Side::Sell, dec(100, 0), dec(1, 0))).unwrap_err();
    assert_eq!(err, cex_zkp::types::EngineError::DuplicateOrderId(5));
    assert_eq!(book.len(), 1);
}

#[test]
fn equal_values_with_other_scales_share_a_level() {
    let mut book = OrderBook::new();
    book.add_order(Order::new(1, 1, "BTC_USDT", Side::Sell, dec(100, 0), dec(1, 0))).unwrap();
    book.add_order(Order::new(2, 1, "BTC_USDT", Side::Sell, dec(10000, 2), dec(15, 1))).unwrap();
    let (_, asks) = book.depth_snapshot(10);
    assert_eq!(asks.len(), 1);
    assert_eq!(asks[0].1, dec(25, 1));
    assert_eq!(asks[0].1.to_string(), "2.5");
}

#[test]
fn default_book_is_empty() {
    let book = OrderBook::default();
    assert!(book.is_empty());
    assert!(book.best_bid().is_none() && book.best_ask().is_none());
}

#[test]
fn every_trade_is_priced_at_its_makers_limit() {
    let mut rng = Lcg(23);
    let mut book = OrderBook::new();
    let mut limit: HashMap<u64, Decimal> = HashMap::new();
    for id in 1..=150u64 {
        let side = if rng.next() % 2 == 0 { Side::Buy } else { Side::Sell };
        let price = dec(95 + (rng.next() % 11) as i64, 0);
        let amount = dec(1 + (rng.next() % 5) as i64, 0);
        let user = 1 + rng.next() % 4;
        limit.insert(id, price);
        let trades = book.match_order(Order::new(id, user, "BTC_USDT", side, price, amount)).unwrap();
        for t in &trades {
            assert_eq!(t.price, limit[&t.maker_order_id]);
        }
    }
}

#[test]
fn a_taker_with_nothing_left_still_takes_one_step() {
    let mut book = OrderBook::new();
    book.add_order(Order::new(1, 1, "BTC_USDT", Side::Sell, dec(100, 0), dec(5, 0))).unwrap();
    let mut empty = Order::new(2, 2, "BTC_USDT", Side::Buy, dec(101, 0), dec(3, 0));
    empty.remaining = dec(0, 0);
    let trades = book.match_order(empty).unwrap();
    assert_eq!(trades.len(), 1);
    assert_eq!(trades[0].amount, dec(0, 0));
    assert_eq!(trades[0].maker_order_id, 1);
    assert_eq!(book.len(), 1);
    let mut owing = Order::new(3, 2, "BTC_USDT", Side::Buy, dec(101, 0), dec(3, 0));
    owing.remaining = dec(-1, 0);
    let trades = book.match_order(owing).unwrap();
    assert_eq!(trades.len(), 1);
    assert_eq!(trades[0].amount, dec(-1, 0));
    assert_eq!(book.open_orders()[0].remaining, dec(6, 0));
    assert_eq!(book.len(), 1);
}

use cex_zkp::decimal::Decimal;
use cex_zkp::order_book::OrderBook;
use cex_zkp::types::{EngineError, Order, Side, Trade};

fn dec(mantissa: i64, scale: u32) -> Decimal {
    Decimal::new(mantissa, scale)
}

fn buy(id: u64, price: Decimal, amount: Decimal) -> Order {
    Order::new(id, 1, "BTC_USDT", Side::Buy, price, amount)
}

fn sell(id: u64, price: Decimal, amount: Decimal) -> Order {
    Order::new(id, 2, "BTC_USDT", Side::Sell, price, amount)
}

fn buy_user(id: u64, user_id: u64, price: Decimal, amount: Decimal) -> Order {
    Order::new(id, user_id, "BTC_USDT", Side::Buy, price, amount)
}

fn sell_user(id: u64, user_id: u64, price: Decimal, amount: Decimal) -> Order {
    Order::new(id, user_id, "BTC_USDT", Side::Sell, price, amount)
}

fn total_amount(trades: &[Trade]) -> Decimal {
    trades.iter().fold(Decimal::zero(), |acc, t| acc.checked_add(&t.amount).unwrap())
}

// ─── add_order ────────────────────────────────────────────────────────

#[test]
fn buy_order_appears_in_bids() {
    let mut book = OrderBook::new();
    book.add_order(buy(1, dec(100, 0), dec(10, 0))).unwrap();
    assert_eq!(book.len(), 1);
    assert_eq!(book.best_bid(), Some(dec(100, 0)));
    assert!(book.best_ask().is_none());
}

#[test]
fn sell_order_appears_in_asks() {
    let mut book = OrderBook::new();
    book.add_order(sell(1, dec(101, 0), dec(10, 0))).unwrap();
    assert_eq!(book.len(), 1);
    assert_eq!(book.best_ask(), Some(dec(101, 0)));
    assert!(book.best_bid().is_none());
}

#[test]
fn bids_sorted_highest_first() {
    let mut book = OrderBook::new();
    book.add_order(buy(1, dec(99, 0), dec(1, 0))).unwrap();
    book.add_order(buy(2, dec(101, 0), dec(1, 0))).unwrap();
    book.add_order(buy(3, dec(100, 0), dec(1, 0))).unwrap();
    assert_eq!(book.best_bid(), Some(dec(101, 0)));
}

#[test]
fn asks_sorted_lowest_first() {
    let mut book = OrderBook::new();
    book.add_order(sell(1, dec(102, 0), dec(1, 0))).unwrap();
    book.add_order(sell(2, dec(100, 0), dec(1, 0))).unwrap();
    book.add_order(sell(3, dec(101, 0), dec(1, 0))).unwrap();
    assert_eq!(book.best_ask(), Some(dec(100, 0)));
}

#[test]
fn multiple_orders_at_same_price_level_fifo() {
    let mut book = OrderBook::new();
    book.add_order(buy(1, dec(100, 0), dec(5, 0))).unwrap();
    book.add_order(buy(2, dec(100, 0), dec(3, 0))).unwrap();
    let orders = book.orders_at_price(Side::Buy, dec(100, 0));
    assert_eq!(orders.len(), 2);
    assert_eq!(orders.first().unwrap().id, 1);
    assert_eq!(orders.last().unwrap().id, 2);
}

#[test]
fn duplicate_order_id_is_rejected() {
    let mut book = OrderBook::new();
    book.add_order(buy(42, dec(100, 0), dec(1, 0))).unwrap();
    let err = book.add_order(buy(42, dec(100, 0), dec(1, 0))).unwrap_err();
    assert_eq!(err, EngineError::DuplicateOrderId(42));
}

#[test]
fn zero_price_is_rejected() {
    let mut book = OrderBook::new();
    let err = book.add_order(buy(1, dec(0, 0), dec(1, 0))).unwrap_err();
    assert_eq!(err, EngineError::InvalidPrice(dec(0, 0)));
}

#[test]
fn negative_price_is_rejected() {
    let mut book = OrderBook::new();
    let err = book.add_order(buy(1, dec(-1, 0), dec(1, 0))).unwrap_err();
    assert_eq!(err, EngineError::InvalidPrice(dec(-1, 0)));
}

#[test]
fn zero_amount_is_rejected() {
    let mut book = OrderBook::new();
    let err = book.add_order(sell(1, dec(100, 0), dec(0, 0))).unwrap_err();
    assert_eq!(err, EngineError::InvalidAmount(dec(0, 0)));
}

// ─── cancel_order ─────────────────────────────────────────────────────

#[test]
fn cancel_buy_order_removes_from_bids() {
    let mut book = OrderBook::new();
    book.add_order(buy(1, dec(100, 0), dec(10, 0))).unwrap();
    let cancelled = book.cancel_order(1).unwrap();
    assert_eq!(cancelled.id, 1);
    assert_eq!(book.len(), 0);
    assert!(book.best_bid().is_none());
}

#[test]
fn cancel_sell_order_removes_from_asks() {
    let mut book = OrderBook::new();
    book.add_order(sell(1, dec(101, 0), dec(5, 0))).unwrap();
    let cancelled = book.cancel_order(1).unwrap();
    assert_eq!(cancelled.id, 1);
    assert_eq!(book.len(), 0);
    assert!(book.best_ask().is_none());
}

#[test]
fn cancel_removes_empty_price_level() {
    let mut book = OrderBook::new();
    book.add_order(buy(1, dec(100, 0), dec(1, 0))).unwrap();
    book.cancel_order(1).unwrap();
    assert!(book.depth_snapshot(usize::MAX).0.is_empty());
    assert!(book.best_bid().is_none());
}

#[test]
fn cancel_middle_order_in_queue_preserves_others() {
    let mut book = OrderBook::new();
    book.add_order(buy(1, dec(100, 0), dec(1, 0))).unwrap();
    book.add_order(buy(2, dec(100, 0), dec(2, 0))).unwrap();
    book.add_order(buy(3, dec(100, 0), dec(3, 0))).unwrap();
    book.cancel_order(2).unwrap();
    let orders = book.orders_at_price(Side::Buy, dec(100, 0));
    assert_eq!(orders.len(), 2);
    assert_eq!(orders.first().unwrap().id, 1);
    assert_eq!(orders.last().unwrap().id, 3);
    assert_eq!(book.len(), 2);
}

#[test]
fn cancel_updates_best_bid_when_top_level_removed() {
    let mut book = OrderBook::new();
    book.add_order(buy(1, dec(101, 0), dec(1, 0))).unwrap();
    book.add_order(buy(2, dec(100, 0), dec(1, 0))).unwrap();
    book.cancel_order(1).unwrap();
    assert_eq!(book.best_bid(), Some(dec(100, 0)));
}

#[test]
fn cancel_nonexistent_order_returns_error() {
    let mut book = OrderBook::new();
    let err = book.cancel_order(99).unwrap_err();
    assert_eq!(err, EngineError::OrderNotFound(99));
}

#[test]
fn cancel_same_order_twice_returns_error() {
    let mut book = OrderBook::new();
    book.add_order(buy(1, dec(100, 0), dec(1, 0))).unwrap();
    book.cancel_order(1).unwrap();
    let err = book.cancel_order(1).unwrap_err();
    assert_eq!(err, EngineError::OrderNotFound(1));
}

// ─── match_order: no crossing ─────────────────────────────────────────

#[test]
fn no_crossing_buy_rests_on_book() {
    let mut book = OrderBook::new();
    book.add_order(sell(1, dec(101, 0), dec(10, 0))).unwrap();
    let trades = book.match_order(buy(2, dec(100, 0), dec(5, 0))).unwrap();

    assert!(trades.is_empty());
    assert_eq!(book.len(), 2);
    assert_eq!(book.best_bid(), Some(dec(100, 0)));
}

#[test]
fn no_crossing_sell_rests_on_book() {
    let mut book = OrderBook::new();
    book.add_order(buy(1, dec(99, 0), dec(10, 0))).unwrap();
    let trades = book.match_order(sell(2, dec(100, 0), dec(5, 0))).unwrap();

    assert!(trades.is_empty());
    assert_eq!(book.len(), 2);
    assert_eq!(book.best_ask(), Some(dec(100, 0)));
}

// ─── match_order: full fill ───────────────────────────────────────────

#[test]
fn full_fill_buy_taker_consumes_ask() {
    let mut book = OrderBook::new();
    book.add_order(sell(1, dec(100, 0), dec(10, 0))).unwrap();

    let trades = book.match_order(buy(2, dec(100, 0), dec(10, 0))).unwrap();

    assert_eq!(trades.len(), 1);
    assert_eq!(trades[0].price, dec(100, 0));
    assert_eq!(trades[0].amount, dec(10, 0));
    assert_eq!(trades[0].maker_order_id, 1);
    assert_eq!(trades[0].taker_order_id, 2);
    assert!(book.is_empty());
}

#[test]
fn full_fill_sell_taker_consumes_bid() {
    let mut book = OrderBook::new();
    book.add_order(buy(1, dec(101, 0), dec(5, 0))).unwrap();

    let trades = book.match_order(sell(2, dec(101, 0), dec(5, 0))).unwrap();

    assert_eq!(trades.len(), 1);
    assert_eq!(trades[0].price, dec(101, 0));
    assert_eq!(trades[0].amount, dec(5, 0));
    assert!(book.is_empty());
}

// ─── match_order: partial fill ────────────────────────────────────────

#[test]
fn partial_fill_taker_larger_than_maker() {
    let mut book = OrderBook::new();
    book.add_order(sell(1, dec(100, 0), dec(3, 0))).unwrap();

    let trades = book.match_order(buy(2, dec(100, 0), dec(10, 0))).unwrap();

    assert_eq!(trades.len(), 1);
    assert_eq!(trades[0].amount, dec(3, 0));
    assert_eq!(book.len(), 1);
    assert_eq!(book.best_bid(), Some(dec(100, 0)));
    assert!(book.best_ask().is_none());
}

#[test]
fn partial_fill_maker_larger_than_taker() {
    let mut book = OrderBook::new();
    book.add_order(sell(1, dec(100, 0), dec(10, 0))).unwrap();

    let trades = book.match_order(buy(2, dec(100, 0), dec(3, 0))).unwrap();

    assert_eq!(trades.len(), 1);
    assert_eq!(trades[0].amount, dec(3, 0));
    assert_eq!(book.len(), 1);
    assert_eq!(book.best_ask(), Some(dec(100, 0)));
    let orders = book.orders_at_price(Side::Sell, dec(100, 0));
    assert_eq!(orders.first().unwrap().remaining, dec(7, 0));
}

// ─── match_order: walking the book ────────────────────────────────────

#[test]
fn buy_taker_walks_multiple_ask_levels() {
    let mut book = OrderBook::new();
    book.add_order(sell(1, dec(100, 0), dec(5, 0))).unwrap();
    book.add_order(sell(2, dec(101, 0), dec(5, 0))).unwrap();
    book.add_order(sell(3, dec(102, 0), dec(5, 0))).unwrap();

    let trades = book.match_order(buy(10, dec(102, 0), dec(12, 0))).unwrap();

    assert_eq!(trades.len(), 3);
    assert_eq!(trades[0].price, dec(100, 0));
    assert_eq!(trades[0].amount, dec(5, 0));
    assert_eq!(trades[1].price, dec(101, 0));
    assert_eq!(trades[1].amount, dec(5, 0));
    assert_eq!(trades[2].price, dec(102, 0));
    assert_eq!(trades[2].amount, dec(2, 0));
    assert_eq!(book.best_ask(), Some(dec(102, 0)));
    assert_eq!(book.len(), 1);
}

#[test]
fn sell_taker_walks_multiple_bid_levels() {
    let mut book = OrderBook::new();
    book.add_order(buy(1, dec(102, 0), dec(5, 0))).unwrap();
    book.add_order(buy(2, dec(101, 0), dec(5, 0))).unwrap();
    book.add_order(buy(3, dec(100, 0), dec(5, 0))).unwrap();

    let trades = book.match_order(sell(10, dec(100, 0), dec(12, 0))).unwrap();

    assert_eq!(trades.len(), 3);
    assert_eq!(trades[0].price, dec(102, 0));
    assert_eq!(trades[0].amount, dec(5, 0));
    assert_eq!(trades[1].price, dec(101, 0));
    assert_eq!(trades[1].amount, dec(5, 0));
    assert_eq!(trades[2].price, dec(100, 0));
    assert_eq!(trades[2].amount, dec(2, 0));
    assert_eq!(book.best_bid(), Some(dec(100, 0)));
    assert_eq!(book.len(), 1);
}

// ─── match_order: execution price is always maker's price ─────────────

#[test]
fn execution_price_is_maker_price_not_taker() {
    let mut book = OrderBook::new();
    book.add_order(sell(1, dec(100, 0), dec(10, 0))).unwrap();

    let trades = book.match_order(buy(2, dec(105, 0), dec(10, 0))).unwrap();

    assert_eq!(trades.len(), 1);
    assert_eq!(trades[0].price, dec(100, 0));
}

// ─── self-trade prevention ────────────────────────────────────────────

#[test]
fn stp_prevents_buy_self_match_and_rests_order() {
    let mut book = OrderBook::new();
    book.add_order(sell_user(1, 7, dec(100, 0), dec(2, 0))).unwrap();

    let trades = book.match_order(buy_user(2, 7, dec(100, 0), dec(1, 0))).unwrap();

    assert!(trades.is_empty());
    assert_eq!(book.len(), 2);
    assert_eq!(book.best_ask(), Some(dec(100, 0)));
    assert_eq!(book.best_bid(), Some(dec(100, 0)));
}

#[test]
fn stp_prevents_sell_self_match_and_rests_order() {
    let mut book = OrderBook::new();
    book.add_order(buy_user(1, 11, dec(100, 0), dec(2, 0))).unwrap();

    let trades = book.match_order(sell_user(2, 11, dec(100, 0), dec(1, 0))).unwrap();

    assert!(trades.is_empty());
    assert_eq!(book.len(), 2);
    assert_eq!(book.best_bid(), Some(dec(100, 0)));
    assert_eq!(book.best_ask(), Some(dec(100, 0)));
}

#[test]
fn stp_buy_matches_others_then_stops_before_self_level() {
    let mut book = OrderBook::new();
    book.add_order(sell_user(1, 21, dec(100, 0), dec(1, 0))).unwrap();
    book.add_order(sell_user(2, 42, dec(101, 0), dec(1, 0))).unwrap();

    let trades = book.match_order(buy_user(3, 42, dec(101, 0), dec(2, 0))).unwrap();

    assert_eq!(trades.len(), 1);
    assert_eq!(trades[0].maker_order_id, 1);
    assert_eq!(trades[0].amount, dec(1, 0));
    assert_eq!(book.len(), 2);
    assert_eq!(book.best_ask(), Some(dec(101, 0)));
    assert_eq!(book.best_bid(), Some(dec(101, 0)));
}

#[test]
fn stp_sell_matches_others_then_stops_before_self_level() {
    let mut book = OrderBook::new();
    book.add_order(buy_user(1, 31, dec(101, 0), dec(1, 0))).unwrap();
    book.add_order(buy_user(2, 55, dec(100, 0), dec(1, 0))).unwrap();

    let trades = book.match_order(sell_user(3, 55, dec(100, 0), dec(2, 0))).unwrap();

    assert_eq!(trades.len(), 1);
    assert_eq!(trades[0].maker_order_id, 1);
    assert_eq!(trades[0].amount, dec(1, 0));
    assert_eq!(book.len(), 2);
    assert_eq!(book.best_bid(), Some(dec(100, 0)));
    assert_eq!(book.best_ask(), Some(dec(100, 0)));
}

// ─── FIFO during matching ─────────────────────────────────────────────

#[test]
fn buy_taker_matches_makers_at_same_level_in_fifo_order() {
    let mut book = OrderBook::new();
    book.add_order(sell(1, dec(100, 0), dec(3, 0))).unwrap();
    book.add_order(sell(2, dec(100, 0), dec(3, 0))).unwrap();
    book.add_order(sell(3, dec(100, 0), dec(3, 0))).unwrap();

    let trades = book.match_order(buy(10, dec(100, 0), dec(7, 0))).unwrap();

    assert_eq!(trades.len(), 3);
    assert_eq!(trades[0].maker_order_id, 1);
    assert_eq!(trades[0].amount, dec(3, 0));
    assert_eq!(trades[1].maker_order_id, 2);
    assert_eq!(trades[1].amount, dec(3, 0));
    assert_eq!(trades[2].maker_order_id, 3);
    assert_eq!(trades[2].amount, dec(1, 0));

    let orders = book.orders_at_price(Side::Sell, dec(100, 0));
    assert_eq!(orders.len(), 1);
    assert_eq!(orders.first().unwrap().id, 3);
    assert_eq!(orders.first().unwrap().remaining, dec(2, 0));
}

#[test]
fn sell_taker_matches_makers_at_same_level_in_fifo_order() {
    let mut book = OrderBook::new();
    book.add_order(buy(1, dec(100, 0), dec(3, 0))).unwrap();
    book.add_order(buy(2, dec(100, 0), dec(3, 0))).unwrap();
    book.add_order(buy(3, dec(100, 0), dec(3, 0))).unwrap();

    let trades = book.match_order(sell(10, dec(100, 0), dec(7, 0))).unwrap();

    assert_eq!(trades.len(), 3);
    assert_eq!(trades[0].maker_order_id, 1);
    assert_eq!(trades[0].amount, dec(3, 0));
    assert_eq!(trades[1].maker_order_id, 2);
    assert_eq!(trades[1].amount, dec(3, 0));
    assert_eq!(trades[2].maker_order_id, 3);
    assert_eq!(trades[2].amount, dec(1, 0));

    let orders = book.orders_at_price(Side::Buy, dec(100, 0));
    assert_eq!(orders.first().unwrap().remaining, dec(2, 0));
}

// ─── full book exhaustion ─────────────────────────────────────────────

#[test]
fn buy_taker_exhausts_entire_ask_book_and_rests_with_leftover() {
    let mut book = OrderBook::new();
    book.add_order(sell(1, dec(100, 0), dec(5, 0))).unwrap();
    book.add_order(sell(2, dec(101, 0), dec(5, 0))).unwrap();

    let trades = book.match_order(buy(10, dec(102, 0), dec(20, 0))).unwrap();

    assert_eq!(trades.len(), 2);
    let filled = total_amount(&trades);
    assert_eq!(filled, dec(10, 0));

    assert!(book.best_ask().is_none());
    assert_eq!(book.best_bid(), Some(dec(102, 0)));
    assert_eq!(book.len(), 1);
}

#[test]
fn partially_filled_maker_can_be_cancelled() {
    let mut book = OrderBook::new();
    book.add_order(sell(1, dec(100, 0), dec(10, 0))).unwrap();
    book.match_order(buy(2, dec(100, 0), dec(3, 0))).unwrap();

    let cancelled = book.cancel_order(1).unwrap();
    assert_eq!(cancelled.remaining, dec(7, 0));
    assert!(book.is_empty());
}

#[test]
fn sum_of_trade_amounts_equals_taker_filled_quantity() {
    let mut book = OrderBook::new();
    book.add_order(sell(1, dec(100, 0), dec(5, 0))).unwrap();
    book.add_order(sell(2, dec(101, 0), dec(5, 0))).unwrap();
    book.add_order(sell(3, dec(102, 0), dec(5, 0))).unwrap();

    let trades = book.match_order(buy(10, dec(102, 0), dec(12, 0))).unwrap();

    let total_traded = total_amount(&trades);
    assert_eq!(total_traded, dec(12, 0));
}

#[test]
fn order_map_len_stays_consistent_through_add_match_cancel() {
    let mut book = OrderBook::new();

    book.add_order(sell(1, dec(100, 0), dec(5, 0))).unwrap();
    book.add_order(sell(2, dec(101, 0), dec(5, 0))).unwrap();
    book.add_order(buy(3, dec(99, 0), dec(5, 0))).unwrap();
    book.add_order(buy(4, dec(98, 0), dec(5, 0))).unwrap();
    assert_eq!(book.len(), 4);

    book.match_order(buy(5, dec(100, 0), dec(5, 0))).unwrap();
    assert_eq!(book.len(), 3);

    book.cancel_order(3).unwrap();
    assert_eq!(book.len(), 2);
}

#[test]
fn fractional_decimal_amounts_fill_correctly() {
    let mut book = OrderBook::new();
    book.add_order(sell(1, dec(10050, 2), dec(5, 3))).unwrap();

    let trades = book.match_order(buy(2, dec(10050, 2), dec(5, 3))).unwrap();

    assert_eq!(trades.len(), 1);
    assert_eq!(trades[0].amount, dec(5, 3));
    assert_eq!(trades[0].price, dec(10050, 2));
    assert!(book.is_empty());
}

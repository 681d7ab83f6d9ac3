//! The mathematical model of an order book: each side is a sequence of price
//! levels in priority order (bids highest first, asks lowest first), each level a
//! FIFO queue of resting orders. The executable book in `order_book` is described
//! entirely in these terms.

use vstd::prelude::*;

use crate::decimal::{difference_spec, sum_spec, Decimal};
use crate::types::{EngineError, Order, Side, Trade};

verus! {

/// One price level: its price, the running total of the remaining quantity of
/// its orders, and the orders in arrival order.
pub struct LevelView {
    pub price: Decimal,
    pub total_qty: Decimal,
    pub orders: Seq<Order>,
}

/// Both sides of a book, best level first.
pub struct BookView {
    pub bids: Seq<LevelView>,
    pub asks: Seq<LevelView>,
}

/// The other side.
pub open spec fn opposite(side: Side) -> Side {
    match side {
        Side::Buy => Side::Sell,
        Side::Sell => Side::Buy,
    }
}

/// Whether price `a` has priority over price `b` on `side`: higher bids, lower asks.
pub open spec fn better(side: Side, a: Decimal, b: Decimal) -> bool {
    match side {
        Side::Buy => a.units() > b.units(),
        Side::Sell => a.units() < b.units(),
    }
}

/// The first level index whose price has no priority over `p`: where a level
/// for `p` is, or would be inserted.
pub open spec fn seek(levels: Seq<LevelView>, side: Side, p: Decimal) -> nat
    decreases levels.len(),
{
    if levels.len() == 0 {
        0
    } else if better(side, levels[0].price, p) {
        1 + seek(levels.drop_first(), side, p)
    } else {
        0
    }
}

/// Sum of `f` over the levels.
pub open spec fn sum_levels(levels: Seq<LevelView>, f: spec_fn(LevelView) -> int) -> int
    decreases levels.len(),
{
    if levels.len() == 0 {
        0
    } else {
        sum_levels(levels.drop_last(), f) + f(levels.last())
    }
}

/// Sum of the remaining quantities (in units of `10^-28`) of some orders.
pub open spec fn sum_remaining(orders: Seq<Order>) -> int
    decreases orders.len(),
{
    if orders.len() == 0 {
        0
    } else {
        sum_remaining(orders.drop_last()) + orders.last().remaining.units()
    }
}

/// Number of orders on some levels.
pub open spec fn count_orders(levels: Seq<LevelView>) -> int {
    sum_levels(levels, |l: LevelView| l.orders.len() as int)
}

/// Remaining quantity (in units) resting on some levels.
pub open spec fn resting_quantity(levels: Seq<LevelView>) -> int {
    sum_levels(levels, |l: LevelView| sum_remaining(l.orders))
}

/// Sum of the amounts (in units) of some trades.
pub open spec fn traded_quantity(trades: Seq<Trade>) -> int
    decreases trades.len(),
{
    if trades.len() == 0 {
        0
    } else {
        traded_quantity(trades.drop_last()) + trades.last().amount.units()
    }
}

/// Whether a level at `price` on the opposite side crosses the taker's limit:
/// asks at or below a buy price, bids at or above a sell price.
pub open spec fn crosses(taker: Order, price: Decimal) -> bool {
    match taker.side {
        Side::Buy => price.units() <= taker.price.units(),
        Side::Sell => price.units() >= taker.price.units(),
    }
}

/// The decimal zero.
pub open spec fn zero() -> Decimal {
    Decimal { mantissa: 0, scale: 0, negative_zero: false }
}

impl BookView {
    /// The levels of one side.
    pub open spec fn side(self, side: Side) -> Seq<LevelView> {
        match side {
            Side::Buy => self.bids,
            Side::Sell => self.asks,
        }
    }

    /// The book with one side replaced.
    pub open spec fn with_side(self, side: Side, levels: Seq<LevelView>) -> BookView {
        match side {
            Side::Buy => BookView { bids: levels, asks: self.asks },
            Side::Sell => BookView { bids: self.bids, asks: levels },
        }
    }

    /// Whether `(side, i, j)` names an order: the `j`-th of level `i`.
    pub open spec fn valid_pos(self, side: Side, i: int, j: int) -> bool {
        0 <= i < self.side(side).len() && 0 <= j < self.side(side)[i].orders.len()
    }

    /// The order at a position.
    pub open spec fn at(self, side: Side, i: int, j: int) -> Order {
        self.side(side)[i].orders[j]
    }

    /// Number of resting orders.
    pub open spec fn count(self) -> int {
        count_orders(self.bids) + count_orders(self.asks)
    }

    /// Remaining quantity resting in the book, both sides together.
    pub open spec fn resting(self) -> int {
        resting_quantity(self.bids) + resting_quantity(self.asks)
    }

    /// Whether an order with this id rests in the book.
    pub open spec fn contains_id(self, id: u64) -> bool {
        exists|s: Side, i: int, j: int| #[trigger] self.valid_pos(s, i, j) && self.at(s, i, j).id == id
    }

    /// The position of the order with this id (meaningful when `contains_id`).
    pub open spec fn locate(self, id: u64) -> (Side, int, int) {
        choose|s: Side, i: int, j: int| #[trigger] self.valid_pos(s, i, j) && self.at(s, i, j).id == id
    }

    /// Best price of a side.
    pub open spec fn best(self, side: Side) -> Option<Decimal> {
        if self.side(side).len() == 0 {
            None
        } else {
            Some(self.side(side)[0].price)
        }
    }

    /// The shape every book keeps: no empty level, levels strictly in priority
    /// order, each order resting on its own side at its own price with something
    /// left to fill, each level's total equal to the sum of what its orders have
    /// left, and no id twice.
    pub open spec fn valid(self) -> bool {
        &&& forall|s: Side, i: int|
            0 <= i < self.side(s).len() ==> #[trigger] self.side(s)[i].orders.len() > 0
        &&& forall|s: Side, i: int, k: int|
            0 <= i < k < self.side(s).len() ==> better(
                s,
                #[trigger] self.side(s)[i].price,
                #[trigger] self.side(s)[k].price,
            )
        &&& forall|s: Side, i: int|
            0 <= i < self.side(s).len() ==> (#[trigger] self.side(s)[i]).total_qty.units()
                == sum_remaining(self.side(s)[i].orders)
        &&& forall|s: Side, i: int| 0 <= i < self.side(s).len() ==> {
            &&& (#[trigger] self.side(s)[i]).price.wf()
            &&& self.side(s)[i].total_qty.wf()
        }
        &&& forall|s: Side, i: int, j: int| #[trigger] self.valid_pos(s, i, j) ==> {
            &&& self.at(s, i, j).side == s
            &&& self.at(s, i, j).price.units() == self.side(s)[i].price.units()
            &&& self.at(s, i, j).wf()
            &&& self.at(s, i, j).remaining.units() > 0
            &&& self.at(s, i, j).remaining.scale <= self.side(s)[i].total_qty.scale
        }
        &&& forall|s1: Side, i1: int, j1: int, s2: Side, i2: int, j2: int|
            #[trigger] self.valid_pos(s1, i1, j1) && #[trigger] self.valid_pos(s2, i2, j2)
                && self.at(s1, i1, j1).id == self.at(s2, i2, j2).id ==> s1 == s2 && i1 == i2
                && j1 == j2
    }

    /// The book after `order` rests on its side: appended to the queue of the
    /// level at an equal price, or alone on a new level at its priority position.
    pub open spec fn insert_resting(self, order: Order) -> BookView {
        let levels = self.side(order.side);
        let i = seek(levels, order.side, order.price) as int;
        if i < levels.len() && levels[i].price.units() == order.price.units() {
            let lv = levels[i];
            self.with_side(
                order.side,
                levels.update(
                    i,
                    LevelView {
                        price: lv.price,
                        total_qty: sum_spec(lv.total_qty, order.remaining),
                        orders: lv.orders.push(order),
                    },
                ),
            )
        } else {
            self.with_side(
                order.side,
                levels.insert(
                    i,
                    LevelView {
                        price: order.price,
                        total_qty: sum_spec(zero(), order.remaining),
                        orders: seq![order],
                    },
                ),
            )
        }
    }

    /// The book after the order at `(side, i, j)` leaves its queue: the level's
    /// total drops by the order's remaining quantity (or becomes zero if it was
    /// smaller), and a level left empty disappears.
    pub open spec fn remove_at(self, side: Side, i: int, j: int) -> BookView {
        let levels = self.side(side);
        let lv = levels[i];
        let rem = lv.orders[j].remaining;
        let total = if lv.total_qty.units() >= rem.units() {
            difference_spec(lv.total_qty, rem)
        } else {
            zero()
        };
        let orders = lv.orders.remove(j);
        if orders.len() == 0 {
            self.with_side(side, levels.remove(i))
        } else {
            self.with_side(side, levels.update(i, LevelView { price: lv.price, total_qty: total, orders }))
        }
    }
}

} // verus!

verus! {

/// One matching step for `taker` against the book: the first order of the best
/// opposite level trades with the taker when that level crosses the taker's
/// limit and the order belongs to another user. The fill is the smaller of the
/// two remaining quantities (the taker's on a tie), the trade executes at the
/// level's price, both orders and the level's total shrink by the fill, and a
/// maker left with nothing is removed. `None` when no trade can happen.
pub open spec fn fill_step(book: BookView, taker: Order) -> Option<(BookView, Order, Trade)> {
    let opp = opposite(taker.side);
    let levels = book.side(opp);
    if levels.len() == 0 {
        None
    } else {
        let lv = levels[0];
        let maker = lv.orders[0];
        if lv.orders.len() == 0 || !crosses(taker, lv.price) || maker.user_id == taker.user_id {
            None
        } else {
            let fill = if taker.remaining.units() <= maker.remaining.units() {
                taker.remaining
            } else {
                maker.remaining
            };
            let maker2 = Order { remaining: difference_spec(maker.remaining, fill), ..maker };
            let taker2 = Order { remaining: difference_spec(taker.remaining, fill), ..taker };
            let lv2 = LevelView {
                price: lv.price,
                total_qty: difference_spec(lv.total_qty, fill),
                orders: lv.orders.update(0, maker2),
            };
            let book2 = book.with_side(opp, levels.update(0, lv2));
            let book3 = if maker2.remaining.units() <= 0 {
                book2.remove_at(opp, 0, 0)
            } else {
                book2
            };
            let trade = Trade {
                maker_order_id: maker.id,
                taker_order_id: taker.id,
                symbol: taker.symbol,
                price: lv.price,
                amount: fill,
            };
            Some((book3, taker2, trade))
        }
    }
}

/// What bounds the number of matching steps: twice the opposite side's order
/// count, plus one while the taker still has something to fill.
pub open spec fn match_measure(book: BookView, taker: Order) -> int {
    count_orders(book.side(opposite(taker.side))) * 2 + if taker.remaining.units() > 0 {
        1int
    } else {
        0int
    }
}

/// Matching to the end: steps repeat while the taker has something left and a
/// step is possible. Gives the final book, the taker as it ends, and the trades
/// in the order they happened.
pub open spec fn match_all(book: BookView, taker: Order) -> (BookView, Order, Seq<Trade>)
    decreases match_measure(book, taker),
{
    if taker.remaining.units() <= 0 {
        (book, taker, Seq::empty())
    } else {
        match fill_step(book, taker) {
            None => (book, taker, Seq::empty()),
            Some(step) => {
                proof {
                    lemma_fill_step_decreases(book, taker);
                }
                let rest = match_all(step.0, step.1);
                (rest.0, rest.1, seq![step.2] + rest.2)
            },
        }
    }
}

/// `sum_levels` over a concatenation.
pub proof fn lemma_sum_levels_concat(a: Seq<LevelView>, b: Seq<LevelView>, f: spec_fn(LevelView) -> int)
    ensures
        sum_levels(a + b, f) == sum_levels(a, f) + sum_levels(b, f),
    decreases b.len(),
{
    if b.len() == 0 {
        assert(a + b =~= a);
    } else {
        lemma_sum_levels_concat(a, b.drop_last(), f);
        assert((a + b).drop_last() =~= a + b.drop_last());
        assert((a + b).last() == b.last());
    }
}

/// `sum_levels` around one level.
pub proof fn lemma_sum_levels_split(x: Seq<LevelView>, i: int, f: spec_fn(LevelView) -> int)
    requires
        0 <= i < x.len(),
    ensures
        sum_levels(x, f) == sum_levels(x.take(i), f) + f(x[i]) + sum_levels(x.skip(i + 1), f),
{
    let one = seq![x[i]];
    assert(x =~= x.take(i) + one + x.skip(i + 1));
    lemma_sum_levels_concat(x.take(i) + one, x.skip(i + 1), f);
    lemma_sum_levels_concat(x.take(i), one, f);
    assert(one.drop_last() =~= Seq::<LevelView>::empty());
    assert(sum_levels(one.drop_last(), f) == 0);
    assert(one.last() == x[i]);
    assert(sum_levels(one, f) == f(x[i]));
}

/// `sum_levels` after replacing one level.
pub proof fn lemma_sum_levels_update(x: Seq<LevelView>, i: int, v: LevelView, f: spec_fn(LevelView) -> int)
    requires
        0 <= i < x.len(),
    ensures
        sum_levels(x.update(i, v), f) == sum_levels(x, f) - f(x[i]) + f(v),
{
    lemma_sum_levels_split(x, i, f);
    lemma_sum_levels_split(x.update(i, v), i, f);
    assert(x.update(i, v).take(i) =~= x.take(i));
    assert(x.update(i, v).skip(i + 1) =~= x.skip(i + 1));
}

/// `sum_levels` after inserting one level.
pub proof fn lemma_sum_levels_insert(x: Seq<LevelView>, i: int, v: LevelView, f: spec_fn(LevelView) -> int)
    requires
        0 <= i <= x.len(),
    ensures
        sum_levels(x.insert(i, v), f) == sum_levels(x, f) + f(v),
{
    lemma_sum_levels_split(x.insert(i, v), i, f);
    assert(x.insert(i, v).take(i) =~= x.take(i));
    assert(x.insert(i, v).skip(i + 1) =~= x.skip(i));
    assert(x =~= x.take(i) + x.skip(i));
    lemma_sum_levels_concat(x.take(i), x.skip(i), f);
}

/// `sum_levels` after removing one level.
pub proof fn lemma_sum_levels_remove(x: Seq<LevelView>, i: int, f: spec_fn(LevelView) -> int)
    requires
        0 <= i < x.len(),
    ensures
        sum_levels(x.remove(i), f) == sum_levels(x, f) - f(x[i]),
{
    lemma_sum_levels_split(x, i, f);
    assert(x.remove(i) =~= x.take(i) + x.skip(i + 1));
    lemma_sum_levels_concat(x.take(i), x.skip(i + 1), f);
}

/// Order counts are never negative.
pub proof fn lemma_count_nonneg(x: Seq<LevelView>)
    ensures
        count_orders(x) >= 0,
    decreases x.len(),
{
    if x.len() > 0 {
        lemma_count_nonneg(x.drop_last());
    }
}

/// Removing an order lowers the side's order count by one.
pub proof fn lemma_remove_at_count(book: BookView, side: Side, i: int, j: int)
    requires
        book.valid_pos(side, i, j),
    ensures
        count_orders(book.remove_at(side, i, j).side(side)) == count_orders(book.side(side)) - 1,
        book.remove_at(side, i, j).side(opposite(side)) == book.side(opposite(side)),
{
    let levels = book.side(side);
    let lv = levels[i];
    let f = |l: LevelView| l.orders.len() as int;
    if lv.orders.remove(j).len() == 0 {
        lemma_sum_levels_remove(levels, i, f);
    } else {
        let rem = lv.orders[j].remaining;
        let total = if lv.total_qty.units() >= rem.units() {
            difference_spec(lv.total_qty, rem)
        } else {
            zero()
        };
        lemma_sum_levels_update(
            levels,
            i,
            LevelView { price: lv.price, total_qty: total, orders: lv.orders.remove(j) },
            f,
        );
    }
}

/// Every matching step lowers the measure: either the maker is used up and
/// leaves the book, or the taker is filled.
pub proof fn lemma_fill_step_decreases(book: BookView, taker: Order)
    requires
        taker.remaining.units() > 0,
        fill_step(book, taker) is Some,
    ensures
        0 <= match_measure(fill_step(book, taker).unwrap().0, fill_step(book, taker).unwrap().1)
            < match_measure(book, taker),
{
    let opp = opposite(taker.side);
    let levels = book.side(opp);
    let lv = levels[0];
    let maker = lv.orders[0];
    let fill = if taker.remaining.units() <= maker.remaining.units() {
        taker.remaining
    } else {
        maker.remaining
    };
    let maker2 = Order { remaining: difference_spec(maker.remaining, fill), ..maker };
    let taker2 = Order { remaining: difference_spec(taker.remaining, fill), ..taker };
    let lv2 = LevelView {
        price: lv.price,
        total_qty: difference_spec(lv.total_qty, fill),
        orders: lv.orders.update(0, maker2),
    };
    let book2 = book.with_side(opp, levels.update(0, lv2));
    let f = |l: LevelView| l.orders.len() as int;
    lemma_sum_levels_update(levels, 0, lv2, f);
    assert(opposite(opp) == taker.side);
    crate::decimal::lemma_zero_units(taker2.remaining);
    crate::decimal::lemma_zero_units(maker2.remaining);
    lemma_count_nonneg(levels);
    if maker2.remaining.units() <= 0 {
        assert(book2.valid_pos(opp, 0, 0));
        lemma_remove_at_count(book2, opp, 0, 0);
        lemma_count_nonneg(book2.remove_at(opp, 0, 0).side(opp));
    } else {
        assert(fill == taker.remaining);
    }
}

} // verus!

verus! {

/// `seek` is the length of the prefix of levels that have priority over `p`.
pub proof fn lemma_seek(levels: Seq<LevelView>, side: Side, p: Decimal)
    ensures
        seek(levels, side, p) <= levels.len(),
        forall|k: int| 0 <= k < seek(levels, side, p) ==> better(side, #[trigger] levels[k].price, p),
        seek(levels, side, p) < levels.len() ==> !better(side, levels[seek(levels, side, p) as int].price, p),
    decreases levels.len(),
{
    if levels.len() > 0 && better(side, levels[0].price, p) {
        let rest = levels.drop_first();
        lemma_seek(rest, side, p);
        assert forall|k: int| 0 <= k < seek(levels, side, p) implies better(side, #[trigger] levels[k].price, p) by {
            if k > 0 {
                assert(levels[k] == rest[k - 1]);
            }
        }
    }
}

/// Whether resting `order` needs no rounding: adding its remaining quantity to the
/// total of the level at its price (if there is one) is exact.
pub open spec fn insert_is_exact(book: BookView, order: Order) -> bool {
    let levels = book.side(order.side);
    let i = seek(levels, order.side, order.price) as int;
    i < levels.len() && levels[i].price.units() == order.price.units() ==> crate::decimal::sum_is_exact(
        levels[i].total_qty,
        order.remaining,
    )
}

/// The number of orders on a side after one more order joins it.
pub proof fn lemma_insert_resting_count(book: BookView, order: Order)
    ensures
        count_orders(book.insert_resting(order).side(order.side)) == count_orders(book.side(order.side)) + 1,
        book.insert_resting(order).side(opposite(order.side)) == book.side(opposite(order.side)),
        book.insert_resting(order).count() == book.count() + 1,
{
    let levels = book.side(order.side);
    let i = seek(levels, order.side, order.price) as int;
    let f = |l: LevelView| l.orders.len() as int;
    lemma_seek(levels, order.side, order.price);
    if i < levels.len() && levels[i].price.units() == order.price.units() {
        let lv = levels[i];
        lemma_sum_levels_update(
            levels,
            i,
            LevelView {
                price: lv.price,
                total_qty: sum_spec(lv.total_qty, order.remaining),
                orders: lv.orders.push(order),
            },
            f,
        );
    } else {
        lemma_sum_levels_insert(
            levels,
            i,
            LevelView { price: order.price, total_qty: sum_spec(zero(), order.remaining), orders: seq![order] },
            f,
        );
    }
}

/// Resting a valid order that is not in the book yet keeps the book valid.
pub proof fn lemma_insert_resting_valid(book: BookView, order: Order)
    requires
        book.valid(),
        order.wf(),
        order.remaining.units() > 0,
        !book.contains_id(order.id),
        insert_is_exact(book, order),
    ensures
        book.insert_resting(order).valid(),
{
    let levels = book.side(order.side);
    let i = seek(levels, order.side, order.price) as int;
    lemma_seek(levels, order.side, order.price);
    if i < levels.len() && levels[i].price.units() == order.price.units() {
        lemma_insert_into_level_valid(book, order, i);
    } else {
        lemma_insert_new_level_valid(book, order, i);
    }
}

#[verifier::spinoff_prover]
proof fn lemma_insert_into_level_valid(book: BookView, order: Order, i: int)
    requires
        book.valid(),
        order.wf(),
        order.remaining.units() > 0,
        !book.contains_id(order.id),
        insert_is_exact(book, order),
        i == seek(book.side(order.side), order.side, order.price),
        i < book.side(order.side).len(),
        book.side(order.side)[i].price.units() == order.price.units(),
    ensures
        book.insert_resting(order).valid(),
{
    reveal(BookView::valid);
    let s0 = order.side;
    let levels = book.side(s0);
    let nb = book.insert_resting(order);
    let lv = levels[i];
    crate::decimal::lemma_sum_units(lv.total_qty, order.remaining);
    assert forall|j: int| 0 <= j < lv.orders.len() implies (#[trigger] lv.orders[j]).remaining.units() >= 0 by {
        assert(book.valid_pos(s0, i, j));
    }
    lemma_sum_remaining_ge(lv.orders, 0);
    assert(book.valid_pos(s0, i, 0));
    crate::decimal::lemma_zero_units(lv.total_qty);
    crate::decimal::lemma_zero_units(order.remaining);
    let nl = LevelView {
        price: lv.price,
        total_qty: sum_spec(lv.total_qty, order.remaining),
        orders: lv.orders.push(order),
    };
    assert(nb.side(s0) == levels.update(i, nl));
    assert(nb.side(opposite(s0)) == book.side(opposite(s0)));
    assert(nl.orders.drop_last() =~= lv.orders);
    assert(book.valid_pos(s0, i, 0));
    assert forall|s: Side, a: int, k: int|
        0 <= a < k < nb.side(s).len() implies better(
            s,
            #[trigger] nb.side(s)[a].price,
            #[trigger] nb.side(s)[k].price,
        ) by {
        assert(better(s, book.side(s)[a].price, book.side(s)[k].price));
    }
    assert forall|s: Side, a: int|
        0 <= a < nb.side(s).len() implies (#[trigger] nb.side(s)[a]).total_qty.units()
            == sum_remaining(nb.side(s)[a].orders) by {
        if !(s == s0 && a == i) {
            assert(nb.side(s)[a] == book.side(s)[a]);
        }
    }
    assert forall|s: Side, a: int| 0 <= a < nb.side(s).len() implies (#[trigger] nb.side(s)[a]).orders.len() > 0 by {
        if !(s == s0 && a == i) {
            assert(nb.side(s)[a] == book.side(s)[a]);
        }
    }
    assert forall|s: Side, a: int| 0 <= a < nb.side(s).len() implies {
        &&& (#[trigger] nb.side(s)[a]).price.wf()
        &&& nb.side(s)[a].total_qty.wf()
    } by {
        if !(s == s0 && a == i) {
            assert(nb.side(s)[a] == book.side(s)[a]);
        }
    }
    assert forall|s: Side, a: int, b: int| #[trigger] nb.valid_pos(s, a, b) implies {
        &&& nb.at(s, a, b).side == s
        &&& nb.at(s, a, b).price.units() == nb.side(s)[a].price.units()
        &&& nb.at(s, a, b).wf()
        &&& nb.at(s, a, b).remaining.units() > 0
        &&& nb.at(s, a, b).remaining.scale <= nb.side(s)[a].total_qty.scale
    } by {
        if s == s0 && a == i && b == lv.orders.len() {
        } else {
            assert(book.valid_pos(s, a, b));
        }
    }
    assert forall|s1: Side, i1: int, j1: int, s2: Side, i2: int, j2: int|
        #[trigger] nb.valid_pos(s1, i1, j1) && #[trigger] nb.valid_pos(s2, i2, j2)
            && nb.at(s1, i1, j1).id == nb.at(s2, i2, j2).id implies s1 == s2 && i1 == i2
            && j1 == j2 by {
        let new1 = s1 == s0 && i1 == i && j1 == lv.orders.len();
        let new2 = s2 == s0 && i2 == i && j2 == lv.orders.len();
        if !new1 {
            assert(book.valid_pos(s1, i1, j1));
        }
        if !new2 {
            assert(book.valid_pos(s2, i2, j2));
        }
    }
}

#[verifier::spinoff_prover]
proof fn lemma_insert_new_level_valid(book: BookView, order: Order, i: int)
    requires
        book.valid(),
        order.wf(),
        order.remaining.units() > 0,
        !book.contains_id(order.id),
        i == seek(book.side(order.side), order.side, order.price),
        i <= book.side(order.side).len(),
        forall|k: int| 0 <= k < i ==> better(order.side, #[trigger] book.side(order.side)[k].price, order.price),
        i < book.side(order.side).len() ==> !better(order.side, book.side(order.side)[i].price, order.price),
        !(i < book.side(order.side).len() && book.side(order.side)[i].price.units() == order.price.units()),
    ensures
        book.insert_resting(order).valid(),
{
    reveal(BookView::valid);
    let s0 = order.side;
    let levels = book.side(s0);
    let nb = book.insert_resting(order);
    let nl = LevelView { price: order.price, total_qty: sum_spec(zero(), order.remaining), orders: seq![order] };
    assert(nb.side(s0) == levels.insert(i, nl));
    assert(nb.side(s0)[i] == nl);
    assert(forall|a: int| 0 <= a < i ==> nb.side(s0)[a] == levels[a]);
    assert(forall|a: int| i < a <= levels.len() ==> nb.side(s0)[a] == levels[a - 1]);
    assert(nb.side(opposite(s0)) == book.side(opposite(s0)));
    assert(nl.orders.drop_last() =~= Seq::<Order>::empty());
    assert(sum_remaining(Seq::<Order>::empty()) == 0);
    assert(sum_remaining(nl.orders.drop_last()) == 0);
    assert(nl.orders.last() == order);
    assert(sum_remaining(nl.orders) == order.remaining.units());
    assert(nl.total_qty == order.remaining);
    assert forall|s: Side, a: int, b: int| #[trigger] nb.valid_pos(s, a, b) implies {
        &&& nb.at(s, a, b).side == s
        &&& nb.at(s, a, b).price.units() == nb.side(s)[a].price.units()
        &&& nb.at(s, a, b).wf()
        &&& nb.at(s, a, b).remaining.units() > 0
        &&& nb.at(s, a, b).remaining.scale <= nb.side(s)[a].total_qty.scale
    } by {
        if s == s0 && a == i {
        } else if s == s0 && a > i {
            assert(book.valid_pos(s, a - 1, b));
        } else {
            assert(book.valid_pos(s, a, b));
        }
    }
    assert forall|s1: Side, i1: int, j1: int, s2: Side, i2: int, j2: int|
        #[trigger] nb.valid_pos(s1, i1, j1) && #[trigger] nb.valid_pos(s2, i2, j2)
            && nb.at(s1, i1, j1).id == nb.at(s2, i2, j2).id implies s1 == s2 && i1 == i2
            && j1 == j2 by {
        let o1 = if s1 == s0 && i1 > i { i1 - 1 } else { i1 };
        let o2 = if s2 == s0 && i2 > i { i2 - 1 } else { i2 };
        if !(s1 == s0 && i1 == i) {
            assert(book.valid_pos(s1, o1, j1));
        }
        if !(s2 == s0 && i2 == i) {
            assert(book.valid_pos(s2, o2, j2));
        }
    }
    assert forall|s: Side, a: int, k: int|
        0 <= a < k < nb.side(s).len() implies better(
            s,
            #[trigger] nb.side(s)[a].price,
            #[trigger] nb.side(s)[k].price,
        ) by {
        if s == s0 {
            if a < i && k > i {
                assert(better(s, levels[a].price, levels[k - 1].price));
            } else if a > i {
                assert(better(s, levels[a - 1].price, levels[k - 1].price));
            } else if k < i {
                assert(better(s, levels[a].price, levels[k].price));
            } else if a == i {
                if k > i + 1 {
                    assert(better(s, levels[i].price, levels[k - 1].price));
                }
            }
        } else {
            assert(better(s, book.side(s)[a].price, book.side(s)[k].price));
        }
    }
    assert forall|s: Side, a: int|
        0 <= a < nb.side(s).len() implies (#[trigger] nb.side(s)[a]).total_qty.units()
            == sum_remaining(nb.side(s)[a].orders) by {
        if s == s0 && a > i {
            assert(nb.side(s)[a] == levels[a - 1]);
        }
    }
    assert forall|s: Side, a: int| 0 <= a < nb.side(s).len() implies (#[trigger] nb.side(s)[a]).orders.len() > 0 by {
        if s == s0 && a > i {
            assert(nb.side(s)[a] == levels[a - 1]);
        }
    }
    assert forall|s: Side, a: int| 0 <= a < nb.side(s).len() implies {
        &&& (#[trigger] nb.side(s)[a]).price.wf()
        &&& nb.side(s)[a].total_qty.wf()
    } by {
        if s == s0 && a > i {
            assert(nb.side(s)[a] == levels[a - 1]);
        }
    }
}

} // verus!

verus! {

/// Resting an order keeps every order already in the book and adds the new one.
pub proof fn lemma_insert_resting_ids(book: BookView, order: Order, id: u64)
    ensures
        book.insert_resting(order).contains_id(id) == (book.contains_id(id) || id == order.id),
{
    let s0 = order.side;
    let levels = book.side(s0);
    let i = seek(levels, s0, order.price) as int;
    lemma_seek(levels, s0, order.price);
    let nb = book.insert_resting(order);
    if i < levels.len() && levels[i].price.units() == order.price.units() {
        let lv = levels[i];
        let nl = LevelView {
            price: lv.price,
            total_qty: sum_spec(lv.total_qty, order.remaining),
            orders: lv.orders.push(order),
        };
        assert(nb.side(s0) == levels.update(i, nl));
        assert(nb.side(opposite(s0)) == book.side(opposite(s0)));
        if book.contains_id(id) {
            let (s, a, b) = book.locate(id);
            assert(nb.valid_pos(s, a, b) && nb.at(s, a, b).id == id);
        }
        if id == order.id {
            assert(nb.valid_pos(s0, i, lv.orders.len() as int) && nb.at(s0, i, lv.orders.len() as int).id == id);
        }
        if nb.contains_id(id) && id != order.id {
            let (s, a, b) = nb.locate(id);
            assert(book.valid_pos(s, a, b) && book.at(s, a, b).id == id);
        }
    } else {
        let nl = LevelView { price: order.price, total_qty: sum_spec(zero(), order.remaining), orders: seq![order] };
        assert(nb.side(s0) == levels.insert(i, nl));
        assert(nb.side(opposite(s0)) == book.side(opposite(s0)));
        assert(nb.side(s0)[i] == nl);
        if book.contains_id(id) {
            let (s, a, b) = book.locate(id);
            let a2 = if s == s0 && a >= i { a + 1 } else { a };
            assert(nb.side(s)[a2] == book.side(s)[a]);
            assert(nb.valid_pos(s, a2, b) && nb.at(s, a2, b).id == id);
        }
        if id == order.id {
            assert(nb.valid_pos(s0, i, 0) && nb.at(s0, i, 0).id == id);
        }
        if nb.contains_id(id) && id != order.id {
            let (s, a, b) = nb.locate(id);
            let a2 = if s == s0 && a > i { a - 1 } else { a };
            assert(nb.side(s)[a] == book.side(s)[a2]);
            assert(book.valid_pos(s, a2, b) && book.at(s, a2, b).id == id);
        }
    }
}

/// Why the book refuses an incoming order, checked in this order: a price that is
/// not positive, an amount that is not positive, an id already resting.
pub open spec fn order_error(book: BookView, order: Order) -> Option<EngineError> {
    if order.price.units() <= 0 {
        Some(EngineError::InvalidPrice(order.price))
    } else if order.amount.units() <= 0 {
        Some(EngineError::InvalidAmount(order.amount))
    } else if book.contains_id(order.id) {
        Some(EngineError::DuplicateOrderId(order.id))
    } else {
        None
    }
}

/// With nothing negative, the sum of remaining quantities is at least any one of them.
pub proof fn lemma_sum_remaining_ge(orders: Seq<Order>, j: int)
    requires
        0 <= j < orders.len(),
        forall|k: int| 0 <= k < orders.len() ==> (#[trigger] orders[k]).remaining.units() >= 0,
    ensures
        sum_remaining(orders) >= orders[j].remaining.units(),
    decreases orders.len(),
{
    lemma_sum_remaining_nonneg(orders.drop_last());
    if j < orders.len() - 1 {
        lemma_sum_remaining_ge(orders.drop_last(), j);
    }
}

/// With nothing negative, the sum of remaining quantities is not negative.
pub proof fn lemma_sum_remaining_nonneg(orders: Seq<Order>)
    requires
        forall|k: int| 0 <= k < orders.len() ==> (#[trigger] orders[k]).remaining.units() >= 0,
    ensures
        sum_remaining(orders) >= 0,
    decreases orders.len(),
{
    if orders.len() > 0 {
        lemma_sum_remaining_nonneg(orders.drop_last());
    }
}

/// `sum_remaining` over a concatenation.
pub proof fn lemma_sum_remaining_concat(a: Seq<Order>, b: Seq<Order>)
    ensures
        sum_remaining(a + b) == sum_remaining(a) + sum_remaining(b),
    decreases b.len(),
{
    if b.len() == 0 {
        assert(a + b =~= a);
    } else {
        lemma_sum_remaining_concat(a, b.drop_last());
        assert((a + b).drop_last() =~= a + b.drop_last());
    }
}

/// `sum_remaining` after removing one order.
pub proof fn lemma_sum_remaining_remove(x: Seq<Order>, j: int)
    requires
        0 <= j < x.len(),
    ensures
        sum_remaining(x.remove(j)) == sum_remaining(x) - x[j].remaining.units(),
{
    let one = seq![x[j]];
    assert(x =~= x.take(j) + one + x.skip(j + 1));
    lemma_sum_remaining_concat(x.take(j) + one, x.skip(j + 1));
    lemma_sum_remaining_concat(x.take(j), one);
    assert(one.drop_last() =~= Seq::<Order>::empty());
    assert(sum_remaining(Seq::<Order>::empty()) == 0);
    assert(sum_remaining(one) == x[j].remaining.units());
    assert(x.remove(j) =~= x.take(j) + x.skip(j + 1));
    lemma_sum_remaining_concat(x.take(j), x.skip(j + 1));
}

/// `sum_remaining` after replacing one order.
pub proof fn lemma_sum_remaining_update(x: Seq<Order>, j: int, o: Order)
    requires
        0 <= j < x.len(),
    ensures
        sum_remaining(x.update(j, o)) == sum_remaining(x) - x[j].remaining.units() + o.remaining.units(),
{
    lemma_sum_remaining_remove(x, j);
    lemma_sum_remaining_remove(x.update(j, o), j);
    assert(x.update(j, o).remove(j) =~= x.remove(j));
}

/// Taking an order out of a valid book keeps it valid; the level's total drops
/// exactly by the order's remaining quantity.
pub proof fn lemma_remove_at_valid(book: BookView, side: Side, i: int, j: int)
    requires
        book.valid(),
        book.valid_pos(side, i, j),
    ensures
        book.remove_at(side, i, j).valid(),
        book.side(side)[i].total_qty.units() >= book.at(side, i, j).remaining.units(),
        crate::decimal::difference_is_exact(book.side(side)[i].total_qty, book.at(side, i, j).remaining),
{
    reveal(BookView::valid);
    let lv = book.side(side)[i];
    let o = lv.orders[j];
    assert forall|k: int| 0 <= k < lv.orders.len() implies (#[trigger] lv.orders[k]).remaining.units() >= 0 by {
        assert(book.valid_pos(side, i, k));
    }
    lemma_sum_remaining_ge(lv.orders, j);
    crate::decimal::lemma_difference_within(lv.total_qty, o.remaining);
    crate::decimal::lemma_zero_units(o.remaining);
    lemma_sum_remaining_remove(lv.orders, j);
    if lv.orders.remove(j).len() == 0 {
        lemma_remove_level_valid(book, side, i, j);
    } else {
        lemma_remove_from_level_valid(book, side, i, j);
    }
}

#[verifier::spinoff_prover]
proof fn lemma_remove_level_valid(book: BookView, side: Side, i: int, j: int)
    requires
        book.valid(),
        book.valid_pos(side, i, j),
        book.side(side)[i].orders.remove(j).len() == 0,
    ensures
        book.remove_at(side, i, j).valid(),
{
    reveal(BookView::valid);
    let levels = book.side(side);
    let nb = book.remove_at(side, i, j);
    assert(nb.side(opposite(side)) == book.side(opposite(side)));
    assert(nb.side(side) == levels.remove(i));
    let op = |s: Side, a: int| if s == side && a >= i { a + 1 } else { a };
    assert forall|s: Side, a: int| 0 <= a < nb.side(s).len() implies #[trigger] nb.side(s)[a] == book.side(s)[op(s, a)] by {
        if s != side {
            assert(s == opposite(side));
        }
    }
    assert forall|s: Side, a: int, b: int| #[trigger] nb.valid_pos(s, a, b) implies {
        &&& nb.at(s, a, b).side == s
        &&& nb.at(s, a, b).price.units() == nb.side(s)[a].price.units()
        &&& nb.at(s, a, b).wf()
        &&& nb.at(s, a, b).remaining.units() > 0
        &&& nb.at(s, a, b).remaining.scale <= nb.side(s)[a].total_qty.scale
    } by {
        assert(nb.side(s)[a] == book.side(s)[op(s, a)]);
        assert(book.valid_pos(s, op(s, a), b));
    }
    assert forall|s1: Side, i1: int, j1: int, s2: Side, i2: int, j2: int|
        #[trigger] nb.valid_pos(s1, i1, j1) && #[trigger] nb.valid_pos(s2, i2, j2)
            && nb.at(s1, i1, j1).id == nb.at(s2, i2, j2).id implies s1 == s2 && i1 == i2
            && j1 == j2 by {
        assert(nb.side(s1)[i1] == book.side(s1)[op(s1, i1)]);
        assert(nb.side(s2)[i2] == book.side(s2)[op(s2, i2)]);
        assert(book.valid_pos(s1, op(s1, i1), j1));
        assert(book.valid_pos(s2, op(s2, i2), j2));
    }
    assert forall|s: Side, a: int, k: int|
        0 <= a < k < nb.side(s).len() implies better(
            s,
            #[trigger] nb.side(s)[a].price,
            #[trigger] nb.side(s)[k].price,
        ) by {
        assert(nb.side(s)[a] == book.side(s)[op(s, a)]);
        assert(nb.side(s)[k] == book.side(s)[op(s, k)]);
    }
}

#[verifier::spinoff_prover]
proof fn lemma_remove_from_level_valid(book: BookView, side: Side, i: int, j: int)
    requires
        book.valid(),
        book.valid_pos(side, i, j),
        book.side(side)[i].orders.remove(j).len() > 0,
        crate::decimal::difference_is_exact(book.side(side)[i].total_qty, book.at(side, i, j).remaining),
        difference_spec(book.side(side)[i].total_qty, book.at(side, i, j).remaining).units()
            == book.side(side)[i].total_qty.units() - book.at(side, i, j).remaining.units(),
        difference_spec(book.side(side)[i].total_qty, book.at(side, i, j).remaining).wf(),
        difference_spec(book.side(side)[i].total_qty, book.at(side, i, j).remaining).scale
            == book.side(side)[i].total_qty.scale,
        book.side(side)[i].total_qty.units() >= book.at(side, i, j).remaining.units(),
        sum_remaining(book.side(side)[i].orders.remove(j)) == sum_remaining(book.side(side)[i].orders)
            - book.at(side, i, j).remaining.units(),
    ensures
        book.remove_at(side, i, j).valid(),
{
    reveal(BookView::valid);
    let levels = book.side(side);
    let lv = levels[i];
    let nb = book.remove_at(side, i, j);
    let total = difference_spec(lv.total_qty, lv.orders[j].remaining);
    let orders = lv.orders.remove(j);
    let nl = LevelView { price: lv.price, total_qty: total, orders };
    assert(nb.side(opposite(side)) == book.side(opposite(side)));
    assert(nb.side(side) == levels.update(i, nl));
    assert forall|s: Side, a: int| 0 <= a < nb.side(s).len() && !(s == side && a == i) implies #[trigger] nb.side(s)[a] == book.side(s)[a] by {
        if s != side {
            assert(s == opposite(side));
        }
    }
    let oj = |s: Side, a: int, b: int| if s == side && a == i && b >= j { b + 1 } else { b };
    assert forall|s: Side, a: int, b: int| #[trigger] nb.valid_pos(s, a, b) implies {
        &&& nb.at(s, a, b).side == s
        &&& nb.at(s, a, b).price.units() == nb.side(s)[a].price.units()
        &&& nb.at(s, a, b).wf()
        &&& nb.at(s, a, b).remaining.units() > 0
        &&& nb.at(s, a, b).remaining.scale <= nb.side(s)[a].total_qty.scale
    } by {
        assert(book.valid_pos(s, a, oj(s, a, b)));
        assert(nb.at(s, a, b) == book.at(s, a, oj(s, a, b)));
    }
    assert forall|s1: Side, i1: int, j1: int, s2: Side, i2: int, j2: int|
        #[trigger] nb.valid_pos(s1, i1, j1) && #[trigger] nb.valid_pos(s2, i2, j2)
            && nb.at(s1, i1, j1).id == nb.at(s2, i2, j2).id implies s1 == s2 && i1 == i2
            && j1 == j2 by {
        assert(book.valid_pos(s1, i1, oj(s1, i1, j1)));
        assert(book.valid_pos(s2, i2, oj(s2, i2, j2)));
        assert(nb.at(s1, i1, j1) == book.at(s1, i1, oj(s1, i1, j1)));
        assert(nb.at(s2, i2, j2) == book.at(s2, i2, oj(s2, i2, j2)));
    }
    assert forall|s: Side, a: int, k: int|
        0 <= a < k < nb.side(s).len() implies better(
            s,
            #[trigger] nb.side(s)[a].price,
            #[trigger] nb.side(s)[k].price,
        ) by {
        assert(better(s, book.side(s)[a].price, book.side(s)[k].price));
    }
    assert forall|s: Side, a: int|
        0 <= a < nb.side(s).len() implies (#[trigger] nb.side(s)[a]).total_qty.units()
            == sum_remaining(nb.side(s)[a].orders) by {
        if s == side && a == i {
            assert(nb.side(s)[a] == nl);
        }
    }
    assert forall|s: Side, a: int| 0 <= a < nb.side(s).len() implies (#[trigger] nb.side(s)[a]).orders.len() > 0 by {
        if s == side && a == i {
            assert(nb.side(s)[a] == nl);
        }
    }
    assert forall|s: Side, a: int| 0 <= a < nb.side(s).len() implies {
        &&& (#[trigger] nb.side(s)[a]).price.wf()
        &&& nb.side(s)[a].total_qty.wf()
    } by {
        if s == side && a == i {
            assert(nb.side(s)[a] == nl);
        }
    }
}

/// Taking an order out removes exactly its id.
pub proof fn lemma_remove_at_ids(book: BookView, side: Side, i: int, j: int, id: u64)
    requires
        book.valid(),
        book.valid_pos(side, i, j),
    ensures
        book.remove_at(side, i, j).contains_id(id) == (book.contains_id(id) && id != book.at(side, i, j).id),
{
    reveal(BookView::valid);
    let levels = book.side(side);
    let lv = levels[i];
    let nb = book.remove_at(side, i, j);
    let orders = lv.orders.remove(j);
    let rem = lv.orders[j].remaining;
    let total = if lv.total_qty.units() >= rem.units() {
        difference_spec(lv.total_qty, rem)
    } else {
        zero()
    };
    assert(nb.side(opposite(side)) == book.side(opposite(side)));
    if orders.len() == 0 {
        assert(nb.side(side) == levels.remove(i));
        if nb.contains_id(id) {
            let (s, a, b) = nb.locate(id);
            let a2 = if s == side && a >= i { a + 1 } else { a };
            assert(nb.side(s)[a] == book.side(s)[a2]);
            assert(book.valid_pos(s, a2, b) && book.at(s, a2, b).id == id);
        }
        if book.contains_id(id) && id != book.at(side, i, j).id {
            let (s, a, b) = book.locate(id);
            assert(!(s == side && a == i));
            let a2 = if s == side && a > i { a - 1 } else { a };
            assert(nb.side(s)[a2] == book.side(s)[a]);
            assert(nb.valid_pos(s, a2, b) && nb.at(s, a2, b).id == id);
        }
    } else {
        assert(nb.side(side) == levels.update(i, LevelView { price: lv.price, total_qty: total, orders }));
        if nb.contains_id(id) {
            let (s, a, b) = nb.locate(id);
            let b2 = if s == side && a == i && b >= j { b + 1 } else { b };
            assert(book.valid_pos(s, a, b2) && book.at(s, a, b2) == nb.at(s, a, b));
            if s == side && a == i && b2 == j {
            } else {
                assert(book.at(s, a, b2).id != book.at(side, i, j).id);
            }
        }
        if book.contains_id(id) && id != book.at(side, i, j).id {
            let (s, a, b) = book.locate(id);
            let b2 = if s == side && a == i && b > j { b - 1 } else { b };
            assert(nb.valid_pos(s, a, b2) && nb.at(s, a, b2) == book.at(s, a, b));
        }
    }
}

/// In a valid book, `seek` finds the level whose price equals `p`.
pub proof fn lemma_seek_level(book: BookView, side: Side, a: int, p: Decimal)
    requires
        book.valid(),
        0 <= a < book.side(side).len(),
        book.side(side)[a].price.units() == p.units(),
    ensures
        seek(book.side(side), side, p) == a,
{
    reveal(BookView::valid);
    let levels = book.side(side);
    lemma_seek(levels, side, p);
    let k = seek(levels, side, p) as int;
    if k < a {
        assert(better(side, levels[k].price, levels[a].price));
    }
    if k > a {
        assert(better(side, levels[a].price, p));
    }
}

/// The position `locate` picks names the order with that id, and only that
/// position does.
pub proof fn lemma_locate(book: BookView, id: u64, s: Side, i: int, j: int)
    requires
        book.valid(),
        book.valid_pos(s, i, j),
        book.at(s, i, j).id == id,
    ensures
        book.contains_id(id),
        book.locate(id) == (s, i, j),
{
    reveal(BookView::valid);
    assert(book.contains_id(id));
    let (s2, i2, j2) = book.locate(id);
    assert(book.valid_pos(s2, i2, j2) && book.at(s2, i2, j2).id == id);
}

/// Replacing one level by a level at the same price whose orders are a subset of
/// the old ones (by id), still valid resting orders, with an exact total, keeps the
/// book valid.
#[verifier::spinoff_prover]
pub proof fn lemma_replace_level_valid(book: BookView, side: Side, i: int, nl: LevelView)
    requires
        book.valid(),
        0 <= i < book.side(side).len(),
        nl.price == book.side(side)[i].price,
        nl.orders.len() > 0,
        nl.total_qty.wf(),
        nl.total_qty.units() == sum_remaining(nl.orders),
        forall|j: int| 0 <= j < nl.orders.len() ==> {
            &&& (#[trigger] nl.orders[j]).side == side
            &&& nl.orders[j].price.units() == nl.price.units()
            &&& nl.orders[j].wf()
            &&& nl.orders[j].remaining.units() > 0
            &&& nl.orders[j].remaining.scale <= nl.total_qty.scale
        },
        forall|j: int| 0 <= j < nl.orders.len() ==> exists|j0: int|
            0 <= j0 < book.side(side)[i].orders.len() && #[trigger] nl.orders[j].id == book.side(side)[i].orders[j0].id,
        forall|j1: int, j2: int|
            0 <= j1 < nl.orders.len() && 0 <= j2 < nl.orders.len() && j1 != j2 ==> #[trigger] nl.orders[j1].id
                != #[trigger] nl.orders[j2].id,
    ensures
        book.with_side(side, book.side(side).update(i, nl)).valid(),
{
    reveal(BookView::valid);
    let levels = book.side(side);
    let nb = book.with_side(side, levels.update(i, nl));
    assert(nb.side(opposite(side)) == book.side(opposite(side)));
    assert(nb.side(side) == levels.update(i, nl));
    assert forall|s: Side, a: int| 0 <= a < nb.side(s).len() && !(s == side && a == i) implies #[trigger] nb.side(s)[a] == book.side(s)[a] by {
        if s != side {
            assert(s == opposite(side));
        }
    }
    assert forall|s: Side, a: int, b: int| #[trigger] nb.valid_pos(s, a, b) implies {
        &&& nb.at(s, a, b).side == s
        &&& nb.at(s, a, b).price.units() == nb.side(s)[a].price.units()
        &&& nb.at(s, a, b).wf()
        &&& nb.at(s, a, b).remaining.units() > 0
        &&& nb.at(s, a, b).remaining.scale <= nb.side(s)[a].total_qty.scale
    } by {
        if !(s == side && a == i) {
            assert(book.valid_pos(s, a, b));
        }
    }
    assert forall|s1: Side, i1: int, j1: int, s2: Side, i2: int, j2: int|
        #[trigger] nb.valid_pos(s1, i1, j1) && #[trigger] nb.valid_pos(s2, i2, j2)
            && nb.at(s1, i1, j1).id == nb.at(s2, i2, j2).id implies s1 == s2 && i1 == i2
            && j1 == j2 by {
        let p1 = if s1 == side && i1 == i {
            choose|j0: int| 0 <= j0 < levels[i].orders.len() && #[trigger] nl.orders[j1].id == levels[i].orders[j0].id
        } else {
            j1
        };
        let p2 = if s2 == side && i2 == i {
            choose|j0: int| 0 <= j0 < levels[i].orders.len() && #[trigger] nl.orders[j2].id == levels[i].orders[j0].id
        } else {
            j2
        };
        assert(book.valid_pos(s1, i1, p1));
        assert(book.valid_pos(s2, i2, p2));
        assert(book.at(s1, i1, p1).id == nb.at(s1, i1, j1).id);
        assert(book.at(s2, i2, p2).id == nb.at(s2, i2, j2).id);
    }
    assert forall|s: Side, a: int, k: int|
        0 <= a < k < nb.side(s).len() implies better(
            s,
            #[trigger] nb.side(s)[a].price,
            #[trigger] nb.side(s)[k].price,
        ) by {
        assert(better(s, book.side(s)[a].price, book.side(s)[k].price));
    }
    assert forall|s: Side, a: int|
        0 <= a < nb.side(s).len() implies (#[trigger] nb.side(s)[a]).total_qty.units()
            == sum_remaining(nb.side(s)[a].orders) by {
        if s == side && a == i {
            assert(nb.side(s)[a] == nl);
        }
    }
    assert forall|s: Side, a: int| 0 <= a < nb.side(s).len() implies (#[trigger] nb.side(s)[a]).orders.len() > 0 by {
        if s == side && a == i {
            assert(nb.side(s)[a] == nl);
        }
    }
    assert forall|s: Side, a: int| 0 <= a < nb.side(s).len() implies {
        &&& (#[trigger] nb.side(s)[a]).price.wf()
        &&& nb.side(s)[a].total_qty.wf()
    } by {
        if s == side && a == i {
            assert(nb.side(s)[a] == nl);
        }
    }
}

/// The quantity a step would fill: the taker's remaining quantity when it is not
/// larger than the maker's, otherwise the maker's.
pub open spec fn step_fill(book: BookView, taker: Order) -> Decimal {
    let maker = book.side(opposite(taker.side))[0].orders[0];
    if taker.remaining.units() <= maker.remaining.units() {
        taker.remaining
    } else {
        maker.remaining
    }
}

/// Whether the subtractions of a matching step need no rounding.
pub open spec fn step_is_exact(book: BookView, taker: Order) -> bool {
    let lv = book.side(opposite(taker.side))[0];
    let fill = step_fill(book, taker);
    fill_step(book, taker) is Some ==> {
        &&& crate::decimal::difference_is_exact(lv.orders[0].remaining, fill)
        &&& crate::decimal::difference_is_exact(taker.remaining, fill)
        &&& crate::decimal::difference_is_exact(lv.total_qty, fill)
    }
}

/// Whether every step of matching `taker` needs no rounding.
pub open spec fn match_is_exact(book: BookView, taker: Order) -> bool
    decreases match_measure(book, taker),
{
    if taker.remaining.units() <= 0 {
        true
    } else {
        match fill_step(book, taker) {
            None => true,
            Some(step) => {
                proof {
                    lemma_fill_step_decreases(book, taker);
                }
                step_is_exact(book, taker) && match_is_exact(step.0, step.1)
            },
        }
    }
}

/// How a step that uses up its maker leaves the best opposite level: gone when
/// the maker was alone on it, otherwise without its first order and with the
/// filled quantity taken off its total.
pub open spec fn front_after_fill(book: BookView, taker: Order, after: BookView) -> bool {
    let opp = opposite(taker.side);
    let levels = book.side(opp);
    let lv = levels[0];
    let fill = step_fill(book, taker);
    &&& lv.orders.len() == 1 ==> after == book.remove_at(opp, 0, 0)
    &&& lv.orders.len() > 1 ==> after == book.with_side(
        opp,
        levels.update(
            0,
            LevelView { price: lv.price, total_qty: difference_spec(lv.total_qty, fill), orders: lv.orders.remove(0) },
        ),
    )
}

/// What one matching step does to a valid book: the book stays valid and loses
/// the filled quantity (only on the opposite side, and only by dropping the maker
/// when it is used up), the taker loses the same quantity, and the trade is for a
/// positive quantity at the level's price.
pub proof fn lemma_fill_step_facts(book: BookView, taker: Order)
    requires
        book.valid(),
        taker.wf(),
        fill_step(book, taker) is Some,
        step_is_exact(book, taker),
    ensures
        ({
            let st = fill_step(book, taker).unwrap();
            &&& st.0.valid()
            &&& st.1.wf()
            &&& st.1 == Order { remaining: st.1.remaining, ..taker }
            &&& st.1.remaining.units() == taker.remaining.units() - st.2.amount.units()
            &&& taker.remaining.units() > 0 ==> st.2.amount.units() > 0
            &&& taker.remaining.units() <= 0 ==> st.2.amount == taker.remaining && st.1.remaining.units() == 0
                && st.0.count() == book.count()
            &&& st.2.amount == step_fill(book, taker)
            &&& st.0.resting() == book.resting() - st.2.amount.units()
            &&& st.0.side(taker.side) == book.side(taker.side)
            &&& st.0.count() <= book.count()
            &&& forall|id: u64| #[trigger] st.0.contains_id(id) ==> book.contains_id(id)
        }),
{
    reveal(BookView::valid);
    let opp = opposite(taker.side);
    let levels = book.side(opp);
    let lv = levels[0];
    let maker = lv.orders[0];
    let fill = step_fill(book, taker);
    assert(book.valid_pos(opp, 0, 0));
    assert forall|k: int| 0 <= k < lv.orders.len() implies (#[trigger] lv.orders[k]).remaining.units() >= 0 by {
        assert(book.valid_pos(opp, 0, k));
    }
    lemma_sum_remaining_ge(lv.orders, 0);
    crate::decimal::lemma_difference_units(maker.remaining, fill);
    crate::decimal::lemma_difference_units(taker.remaining, fill);
    crate::decimal::lemma_difference_units(lv.total_qty, fill);
    crate::decimal::lemma_zero_units(maker.remaining);
    crate::decimal::lemma_zero_units(taker.remaining);
    crate::decimal::lemma_zero_units(lv.total_qty);
    let maker2 = Order { remaining: difference_spec(maker.remaining, fill), ..maker };
    crate::decimal::lemma_zero_units(maker2.remaining);
    let f = |l: LevelView| sum_remaining(l.orders);
    let g = |l: LevelView| l.orders.len() as int;
    lemma_sum_remaining_update(lv.orders, 0, maker2);
    if maker2.remaining.units() > 0 {
        let lv2 = LevelView {
            price: lv.price,
            total_qty: difference_spec(lv.total_qty, fill),
            orders: lv.orders.update(0, maker2),
        };
        assert forall|j: int| 0 <= j < lv2.orders.len() implies exists|j0: int|
            0 <= j0 < lv.orders.len() && #[trigger] lv2.orders[j].id == lv.orders[j0].id by {
            assert(lv2.orders[j].id == lv.orders[j].id);
        }
        assert forall|j: int| 0 <= j < lv2.orders.len() implies {
            &&& (#[trigger] lv2.orders[j]).side == opp
            &&& lv2.orders[j].price.units() == lv2.price.units()
            &&& lv2.orders[j].wf()
            &&& lv2.orders[j].remaining.units() > 0
            &&& lv2.orders[j].remaining.scale <= lv2.total_qty.scale
        } by {
            assert(book.valid_pos(opp, 0, j));
        }
        assert forall|j1: int, j2: int|
            0 <= j1 < lv2.orders.len() && 0 <= j2 < lv2.orders.len() && j1 != j2 implies #[trigger] lv2.orders[j1].id
                != #[trigger] lv2.orders[j2].id by {
            assert(book.valid_pos(opp, 0, j1));
            assert(book.valid_pos(opp, 0, j2));
        }
        lemma_replace_level_valid(book, opp, 0, lv2);
        lemma_sum_levels_update(levels, 0, lv2, f);
        lemma_sum_levels_update(levels, 0, lv2, g);
        let nb = book.with_side(opp, levels.update(0, lv2));
        assert forall|id: u64| #[trigger] nb.contains_id(id) implies book.contains_id(id) by {
            let (s, a, b) = nb.locate(id);
            assert(book.valid_pos(s, a, b) && book.at(s, a, b).id == nb.at(s, a, b).id);
        }
    } else {
        lemma_fill_step_filled(book, taker);
    }
}

#[verifier::spinoff_prover]
proof fn lemma_fill_step_filled(book: BookView, taker: Order)
    requires
        book.valid(),
        taker.wf(),
        taker.remaining.units() > 0,
        fill_step(book, taker) is Some,
        step_is_exact(book, taker),
        difference_spec(book.side(opposite(taker.side))[0].orders[0].remaining, step_fill(book, taker)).units()
            <= 0,
    ensures
        ({
            let st = fill_step(book, taker).unwrap();
            &&& st.0.valid()
            &&& st.0.resting() == book.resting() - st.2.amount.units()
            &&& st.0.count() <= book.count()
            &&& forall|id: u64| #[trigger] st.0.contains_id(id) ==> book.contains_id(id)
            &&& front_after_fill(book, taker, st.0)
        }),
{
    reveal(BookView::valid);
    let opp = opposite(taker.side);
    let levels = book.side(opp);
    let lv = levels[0];
    let maker = lv.orders[0];
    let fill = step_fill(book, taker);
    assert(book.valid_pos(opp, 0, 0));
    assert forall|k: int| 0 <= k < lv.orders.len() implies (#[trigger] lv.orders[k]).remaining.units() >= 0 by {
        assert(book.valid_pos(opp, 0, k));
    }
    lemma_sum_remaining_ge(lv.orders, 0);
    crate::decimal::lemma_difference_units(maker.remaining, fill);
    crate::decimal::lemma_difference_units(lv.total_qty, fill);
    crate::decimal::lemma_zero_units(maker.remaining);
    crate::decimal::lemma_zero_units(taker.remaining);
    crate::decimal::lemma_zero_units(lv.total_qty);
    let maker2 = Order { remaining: difference_spec(maker.remaining, fill), ..maker };
    crate::decimal::lemma_zero_units(maker2.remaining);
    let total2 = difference_spec(lv.total_qty, fill);
    crate::decimal::lemma_zero_units(total2);
    let lv2 = LevelView { price: lv.price, total_qty: total2, orders: lv.orders.update(0, maker2) };
    let book2 = book.with_side(opp, levels.update(0, lv2));
    let st = fill_step(book, taker).unwrap();
    assert(st.0 == book2.remove_at(opp, 0, 0));
    assert(book2.side(opp)[0] == lv2);
    assert(lv2.orders.remove(0) =~= lv.orders.remove(0));
    lemma_sum_remaining_remove(lv.orders, 0);
    let f = |l: LevelView| sum_remaining(l.orders);
    let g = |l: LevelView| l.orders.len() as int;
    if lv.orders.remove(0).len() == 0 {
        assert(st.0.side(opp) == levels.remove(0));
        assert(st.0 == book.remove_at(opp, 0, 0));
        lemma_remove_at_valid(book, opp, 0, 0);
        lemma_sum_levels_remove(levels, 0, f);
        lemma_sum_levels_remove(levels, 0, g);
        assert forall|id: u64| #[trigger] st.0.contains_id(id) implies book.contains_id(id) by {
            lemma_remove_at_ids(book, opp, 0, 0, id);
        }
    } else {
        let rest = lv.orders.remove(0);
        assert(book.valid_pos(opp, 0, 1));
        assert forall|k: int| 0 <= k < rest.len() implies (#[trigger] rest[k]).remaining.units() >= 0 by {
            assert(book.valid_pos(opp, 0, k + 1));
        }
        lemma_sum_remaining_ge(rest, 0);
        assert(rest[0] == lv.orders[1]);
        assert(total2.units() > 0);
        assert(difference_spec(total2, maker2.remaining) == total2);
        let nl = LevelView { price: lv.price, total_qty: total2, orders: lv.orders.remove(0) };
        assert(st.0.side(opp) == levels.update(0, nl));
        assert(st.0 == book.with_side(opp, levels.update(0, nl)));
        assert forall|j: int| 0 <= j < nl.orders.len() implies exists|j0: int|
            0 <= j0 < lv.orders.len() && #[trigger] nl.orders[j].id == lv.orders[j0].id by {
            assert(nl.orders[j].id == lv.orders[j + 1].id);
        }
        assert forall|j: int| 0 <= j < nl.orders.len() implies {
            &&& (#[trigger] nl.orders[j]).side == opp
            &&& nl.orders[j].price.units() == nl.price.units()
            &&& nl.orders[j].wf()
            &&& nl.orders[j].remaining.units() > 0
            &&& nl.orders[j].remaining.scale <= nl.total_qty.scale
        } by {
            assert(book.valid_pos(opp, 0, j + 1));
        }
        assert forall|j1: int, j2: int|
            0 <= j1 < nl.orders.len() && 0 <= j2 < nl.orders.len() && j1 != j2 implies #[trigger] nl.orders[j1].id
                != #[trigger] nl.orders[j2].id by {
            assert(book.valid_pos(opp, 0, j1 + 1));
            assert(book.valid_pos(opp, 0, j2 + 1));
        }
        lemma_replace_level_valid(book, opp, 0, nl);
        lemma_sum_levels_update(levels, 0, nl, f);
        lemma_sum_levels_update(levels, 0, nl, g);
        assert forall|id: u64| #[trigger] st.0.contains_id(id) implies book.contains_id(id) by {
            let (s, a, b) = st.0.locate(id);
            let b0 = if s == opp && a == 0 { b + 1 } else { b };
            assert(book.valid_pos(s, a, b0) && book.at(s, a, b0).id == st.0.at(s, a, b).id);
        }
    }
}

/// The shape of one matching step: the taker and the trade it produces, and the
/// best opposite level afterwards, whether the maker is used up or not.
pub proof fn lemma_fill_step_shape(book: BookView, taker: Order)
    requires
        book.valid(),
        taker.wf(),
        fill_step(book, taker) is Some,
        step_is_exact(book, taker),
    ensures
        ({
            let opp = opposite(taker.side);
            let levels = book.side(opp);
            let lv = levels[0];
            let maker = lv.orders[0];
            let fill = step_fill(book, taker);
            let left = difference_spec(maker.remaining, fill);
            let st = fill_step(book, taker).unwrap();
            &&& lv.orders.len() > 0
            &&& st.1 == Order { remaining: difference_spec(taker.remaining, fill), ..taker }
            &&& st.2 == Trade {
                maker_order_id: maker.id,
                taker_order_id: taker.id,
                symbol: taker.symbol,
                price: lv.price,
                amount: fill,
            }
            &&& left.units() > 0 ==> st.0 == book.with_side(
                opp,
                levels.update(
                    0,
                    LevelView {
                        price: lv.price,
                        total_qty: difference_spec(lv.total_qty, fill),
                        orders: lv.orders.update(0, Order { remaining: left, ..maker }),
                    },
                ),
            )
            &&& left.units() <= 0 ==> front_after_fill(book, taker, st.0)
        }),
{
    reveal(BookView::valid);
    let opp = opposite(taker.side);
    let levels = book.side(opp);
    let lv = levels[0];
    let maker = lv.orders[0];
    let fill = step_fill(book, taker);
    let left = difference_spec(maker.remaining, fill);
    crate::decimal::lemma_zero_units(left);
    if left.units() <= 0 {
        assert(book.valid_pos(opp, 0, 0));
        crate::decimal::lemma_difference_units(maker.remaining, fill);
        lemma_fill_step_filled(book, taker);
    }
}

/// What matching does with an accepted taker. A taker with something left is
/// matched to the end (`match_all`). A taker with nothing left (or less than
/// nothing) still takes part in one step when a step is possible: it trades its
/// remaining quantity against the best resting order, which keeps the difference,
/// and ends with nothing left.
pub open spec fn match_run(book: BookView, taker: Order) -> (BookView, Order, Seq<Trade>) {
    if taker.remaining.units() > 0 {
        match_all(book, taker)
    } else {
        match fill_step(book, taker) {
            None => (book, taker, Seq::empty()),
            Some(st) => (st.0, st.1, seq![st.2]),
        }
    }
}

/// Whether the steps of `match_run` need no rounding.
pub open spec fn run_is_exact(book: BookView, taker: Order) -> bool {
    if taker.remaining.units() > 0 {
        match_is_exact(book, taker)
    } else {
        step_is_exact(book, taker)
    }
}

/// What `match_run` gives: a valid book, the taker with its remaining quantity
/// lowered by what traded, trades of the taker at crossing prices (of positive
/// amounts when the taker had something left), and resting orders only taken
/// from.
pub proof fn lemma_match_run_facts(book: BookView, taker: Order)
    requires
        book.valid(),
        taker.wf(),
        run_is_exact(book, taker),
    ensures
        ({
            let m = match_run(book, taker);
            &&& m.0.valid()
            &&& m.1 == Order { remaining: m.1.remaining, ..taker }
            &&& m.1.wf()
            &&& m.1.remaining.units() == taker.remaining.units() - traded_quantity(m.2)
            &&& taker.remaining.units() <= 0 ==> m.1.remaining.units() <= 0
            &&& m.0.resting() == book.resting() - traded_quantity(m.2)
            &&& m.0.count() <= book.count()
            &&& m.0.side(taker.side) == book.side(taker.side)
            &&& forall|id: u64| #[trigger] m.0.contains_id(id) ==> book.contains_id(id)
            &&& forall|k: int| 0 <= k < m.2.len() ==> {
                &&& (#[trigger] m.2[k]).taker_order_id == taker.id
                &&& m.2[k].symbol == taker.symbol
                &&& taker.remaining.units() > 0 ==> m.2[k].amount.units() > 0
                &&& crosses(taker, m.2[k].price)
            }
        }),
{
    if taker.remaining.units() > 0 {
        lemma_match_all_facts(book, taker);
    } else {
        match fill_step(book, taker) {
            None => {},
            Some(st) => {
                lemma_fill_step_facts(book, taker);
                lemma_fill_step_shape(book, taker);
                lemma_traded_quantity_prepend(st.2, Seq::empty());
                assert(seq![st.2] + Seq::<Trade>::empty() =~= seq![st.2]);
                assert(traded_quantity(Seq::<Trade>::empty()) == 0);
            },
        }
    }
}

/// The book after `taker` is matched to the end and whatever it has left rests.
pub open spec fn match_outcome(book: BookView, taker: Order) -> BookView {
    let m = match_run(book, taker);
    if m.1.remaining.units() > 0 {
        m.0.insert_resting(m.1)
    } else {
        m.0
    }
}

/// Whether matching `taker`, and resting what it has left, needs no rounding.
pub open spec fn match_order_is_exact(book: BookView, taker: Order) -> bool {
    let m = match_run(book, taker);
    &&& run_is_exact(book, taker)
    &&& m.1.remaining.units() > 0 ==> insert_is_exact(m.0, m.1)
}

/// `traded_quantity` of a trade followed by more trades.
pub proof fn lemma_traded_quantity_prepend(t: Trade, rest: Seq<Trade>)
    ensures
        traded_quantity(seq![t] + rest) == t.amount.units() + traded_quantity(rest),
    decreases rest.len(),
{
    let all = seq![t] + rest;
    if rest.len() == 0 {
        assert(all.drop_last() =~= Seq::<Trade>::empty());
        assert(all.last() == t);
        assert(traded_quantity(all.drop_last()) == 0);
    } else {
        assert(all.drop_last() =~= seq![t] + rest.drop_last());
        assert(all.last() == rest.last());
        lemma_traded_quantity_prepend(t, rest.drop_last());
    }
    assert(traded_quantity(all) == traded_quantity(all.drop_last()) + all.last().amount.units());
}

/// Resting an order adds its remaining quantity to the book.
pub proof fn lemma_insert_resting_quantity(book: BookView, order: Order)
    ensures
        book.insert_resting(order).resting() == book.resting() + order.remaining.units(),
{
    let s0 = order.side;
    let levels = book.side(s0);
    let i = seek(levels, s0, order.price) as int;
    let f = |l: LevelView| sum_remaining(l.orders);
    lemma_seek(levels, s0, order.price);
    let nb = book.insert_resting(order);
    if i < levels.len() && levels[i].price.units() == order.price.units() {
        let lv = levels[i];
        let nl = LevelView {
            price: lv.price,
            total_qty: sum_spec(lv.total_qty, order.remaining),
            orders: lv.orders.push(order),
        };
        assert(nl.orders.drop_last() =~= lv.orders);
        assert(sum_remaining(nl.orders) == sum_remaining(lv.orders) + order.remaining.units());
        lemma_sum_levels_update(levels, i, nl, f);
        assert(nb.side(s0) == levels.update(i, nl));
    } else {
        let nl = LevelView { price: order.price, total_qty: sum_spec(zero(), order.remaining), orders: seq![order] };
        assert(nl.orders.drop_last() =~= Seq::<Order>::empty());
        assert(sum_remaining(nl.orders.drop_last()) == 0);
        assert(sum_remaining(nl.orders) == order.remaining.units());
        lemma_sum_levels_insert(levels, i, nl, f);
        assert(nb.side(s0) == levels.insert(i, nl));
    }
    assert(nb.side(opposite(s0)) == book.side(opposite(s0)));
    assert(resting_quantity(nb.side(s0)) == resting_quantity(levels) + order.remaining.units());
    match s0 {
        Side::Buy => {
            assert(nb.resting() == resting_quantity(nb.side(s0)) + resting_quantity(nb.side(opposite(s0))));
        },
        Side::Sell => {
            assert(nb.resting() == resting_quantity(nb.side(opposite(s0))) + resting_quantity(nb.side(s0)));
        },
    }
}

/// What matching to the end does to a valid book: it stays valid and only loses
/// orders (and only on the opposite side); the taker changes only in what it has
/// left, which drops by exactly what was traded, and the book loses the same
/// quantity; matching stops only when the taker is filled or no step is possible;
/// every trade is the taker's, for a positive quantity, at a price that crosses
/// the taker's limit.
pub proof fn lemma_match_all_facts(book: BookView, taker: Order)
    requires
        book.valid(),
        taker.wf(),
        match_is_exact(book, taker),
    ensures
        ({
            let m = match_all(book, taker);
            &&& m.0.valid()
            &&& m.1 == Order { remaining: m.1.remaining, ..taker }
            &&& m.1.wf()
            &&& traded_quantity(m.2) >= 0
            &&& m.1.remaining.units() == taker.remaining.units() - traded_quantity(m.2)
            &&& taker.remaining.units() >= 0 ==> m.1.remaining.units() >= 0
            &&& m.0.resting() == book.resting() - traded_quantity(m.2)
            &&& m.0.count() <= book.count()
            &&& m.0.side(taker.side) == book.side(taker.side)
            &&& forall|id: u64| #[trigger] m.0.contains_id(id) ==> book.contains_id(id)
            &&& m.1.remaining.units() > 0 ==> fill_step(m.0, m.1) is None
            &&& forall|k: int| 0 <= k < m.2.len() ==> {
                &&& (#[trigger] m.2[k]).taker_order_id == taker.id
                &&& m.2[k].symbol == taker.symbol
                &&& m.2[k].amount.units() > 0
                &&& crosses(taker, m.2[k].price)
            }
        }),
    decreases match_measure(book, taker),
{
    if taker.remaining.units() > 0 {
        match fill_step(book, taker) {
            None => {},
            Some(st) => {
                lemma_fill_step_decreases(book, taker);
                lemma_fill_step_facts(book, taker);
                lemma_fill_step_shape(book, taker);
                lemma_match_all_facts(st.0, st.1);
                let rest = match_all(st.0, st.1);
                let m = match_all(book, taker);
                assert(m == (rest.0, rest.1, seq![st.2] + rest.2));
                lemma_traded_quantity_prepend(st.2, rest.2);
                assert forall|k: int| 0 <= k < m.2.len() implies {
                    &&& (#[trigger] m.2[k]).taker_order_id == taker.id
                    &&& m.2[k].symbol == taker.symbol
                    &&& m.2[k].amount.units() > 0
                    &&& crosses(taker, m.2[k].price)
                } by {
                    if k > 0 {
                        assert(m.2[k] == rest.2[k - 1]);
                    }
                }
            },
        }
    }
}

/// The orders on some levels, level by level, each level in arrival order.
pub open spec fn level_orders(levels: Seq<LevelView>) -> Seq<Order> {
    levels.map_values(|l: LevelView| l.orders).flatten()
}

/// The first `limit` levels (all of them when there are fewer), each as its price
/// and total.
pub open spec fn depth(levels: Seq<LevelView>, limit: nat) -> Seq<(Decimal, Decimal)> {
    let n = if limit < levels.len() {
        limit as int
    } else {
        levels.len() as int
    };
    levels.take(n).map_values(|l: LevelView| (l.price, l.total_qty))
}

/// The orders resting at `price` on `side`, in arrival order; empty when no level
/// has that price.
pub open spec fn orders_at(book: BookView, side: Side, price: Decimal) -> Seq<Order> {
    let levels = book.side(side);
    let i = seek(levels, side, price) as int;
    if i < levels.len() && levels[i].price.units() == price.units() {
        levels[i].orders
    } else {
        Seq::empty()
    }
}

/// `level_orders` of some levels followed by one more.
pub proof fn lemma_level_orders_push(levels: Seq<LevelView>, l: LevelView)
    ensures
        level_orders(levels.push(l)) == level_orders(levels) + l.orders,
{
    let f = |x: LevelView| x.orders;
    assert(levels.push(l).map_values(f) =~= levels.map_values(f).push(l.orders));
    levels.map_values(f).lemma_flatten_push(l.orders);
}

/// Listing the orders of some levels gives as many orders as they hold, with the
/// remaining quantity they hold together.
pub proof fn lemma_level_orders_totals(levels: Seq<LevelView>)
    ensures
        level_orders(levels).len() == count_orders(levels),
        sum_remaining(level_orders(levels)) == resting_quantity(levels),
    decreases levels.len(),
{
    if levels.len() == 0 {
        assert(levels.map_values(|l: LevelView| l.orders) =~= Seq::<Seq<Order>>::empty());
        assert(level_orders(levels) =~= Seq::<Order>::empty());
    } else {
        let init = levels.drop_last();
        lemma_level_orders_totals(init);
        assert(init.push(levels.last()) =~= levels);
        lemma_level_orders_push(init, levels.last());
        lemma_sum_remaining_concat(level_orders(init), levels.last().orders);
    }
}

/// The resting order with this id (meaningful when `contains_id`).
pub open spec fn order_of(book: BookView, id: u64) -> Order {
    let (s, i, j) = book.locate(id);
    book.at(s, i, j)
}

/// `a` is `b` except perhaps for its remaining quantity.
pub open spec fn same_but_remaining(a: Order, b: Order) -> bool {
    a == Order { remaining: a.remaining, ..b }
}

/// Where an order that rests after a matching step, at `pos`, rested before it:
/// one level further down when the step removed the best opposite level, one
/// place further back in that level when the step removed its first order, and
/// at the same place otherwise.
pub open spec fn step_origin(book: BookView, taker: Order, pos: (Side, int, int)) -> (Side, int, int) {
    let opp = opposite(taker.side);
    let lv = book.side(opp)[0];
    let left = difference_spec(lv.orders[0].remaining, step_fill(book, taker));
    if pos.0 != opp || left.units() > 0 {
        pos
    } else if lv.orders.len() == 1 {
        (pos.0, pos.1 + 1, pos.2)
    } else if pos.1 == 0 {
        (pos.0, 0, pos.2 + 1)
    } else {
        pos
    }
}

/// A matching step changes no resting order except in its remaining quantity, and
/// every order that rests after it rested before it at `step_origin` of its place.
pub proof fn lemma_fill_step_keeps_orders(book: BookView, taker: Order)
    requires
        book.valid(),
        taker.wf(),
        fill_step(book, taker) is Some,
        step_is_exact(book, taker),
    ensures
        forall|id: u64| #[trigger] fill_step(book, taker).unwrap().0.contains_id(id) ==> {
            &&& book.contains_id(id)
            &&& same_but_remaining(order_of(fill_step(book, taker).unwrap().0, id), order_of(book, id))
            &&& book.locate(id) == step_origin(book, taker, fill_step(book, taker).unwrap().0.locate(id))
        },
{
    lemma_fill_step_facts(book, taker);
    lemma_fill_step_shape(book, taker);
    let st0 = fill_step(book, taker).unwrap().0;
    let opp = opposite(taker.side);
    let levels = book.side(opp);
    let lv = levels[0];
    let maker = lv.orders[0];
    let left = difference_spec(maker.remaining, step_fill(book, taker));
    let single = lv.orders.len() == 1;
    assert(st0.side(taker.side) == book.side(taker.side));
    assert forall|id: u64| #[trigger] st0.contains_id(id) implies same_but_remaining(order_of(st0, id), order_of(book, id))
        && book.locate(id) == step_origin(book, taker, st0.locate(id)) by {
        let (s, a, b) = st0.locate(id);
        assert(st0.valid_pos(s, a, b) && st0.at(s, a, b).id == id);
        if s == opp {
            if left.units() > 0 {
                assert(book.valid_pos(s, a, b));
                assert(same_but_remaining(st0.at(s, a, b), book.at(s, a, b)));
                lemma_locate(book, id, s, a, b);
            } else if single {
                assert(st0.side(opp) == levels.remove(0));
                assert(book.valid_pos(s, a + 1, b));
                assert(st0.at(s, a, b) == book.at(s, a + 1, b));
                lemma_locate(book, id, s, a + 1, b);
            } else {
                let b2 = if a == 0 { b + 1 } else { b };
                assert(book.valid_pos(s, a, b2));
                assert(st0.at(s, a, b) == book.at(s, a, b2));
                lemma_locate(book, id, s, a, b2);
            }
        } else {
            assert(s == taker.side);
            assert(book.valid_pos(s, a, b));
            assert(st0.at(s, a, b) == book.at(s, a, b));
            lemma_locate(book, id, s, a, b);
        }
    }
}

} // verus!

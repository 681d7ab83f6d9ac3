//! Properties of the order book that span several operations, stated over the
//! model in `book_model` that the operations' contracts use.

use vstd::prelude::*;

use crate::book_model::{
    better, depth, fill_step, insert_is_exact, lemma_fill_step_decreases, lemma_fill_step_facts,
    lemma_fill_step_keeps_orders, lemma_fill_step_shape, lemma_insert_resting_quantity, lemma_insert_resting_valid,
    lemma_level_orders_totals, lemma_locate, lemma_match_all_facts, lemma_match_run_facts, lemma_seek, level_orders,
    match_all, match_is_exact, match_measure, match_order_is_exact, match_outcome, match_run, opposite, order_error,
    order_of, run_is_exact, step_is_exact,
    same_but_remaining, seek, sum_remaining, traded_quantity, BookView, LevelView,
};
use crate::decimal::sum_spec;
use crate::types::Order;

verus! {

/// Two sides list the same levels at the same prices with the same orders, and
/// their level totals have the same values (one may carry more fractional digits).
pub open spec fn same_side(x: Seq<LevelView>, y: Seq<LevelView>) -> bool {
    &&& x.len() == y.len()
    &&& forall|i: int|
        0 <= i < x.len() ==> {
            &&& (#[trigger] x[i]).price == y[i].price
            &&& x[i].orders == y[i].orders
            &&& x[i].total_qty.units() == y[i].total_qty.units()
        }
}

/// Two books that agree side by side in the sense of [`same_side`].
pub open spec fn same_book(a: BookView, b: BookView) -> bool {
    same_side(a.bids, b.bids) && same_side(a.asks, b.asks)
}

/// The listing of open orders (bids, then asks) holds exactly as many orders as
/// the book counts, and their remaining quantities add up to what rests in the book.
pub proof fn law_open_orders_match_book(book: BookView)
    ensures
        (level_orders(book.bids) + level_orders(book.asks)).len() == book.count(),
        sum_remaining(level_orders(book.bids) + level_orders(book.asks)) == book.resting(),
{
    lemma_level_orders_totals(book.bids);
    lemma_level_orders_totals(book.asks);
    crate::book_model::lemma_sum_remaining_concat(level_orders(book.bids), level_orders(book.asks));
}

/// A depth snapshot of a side lists at most `limit` levels, best price first and
/// strictly worsening, each with a total equal to what its orders have left.
pub proof fn law_depth_is_ordered_with_level_sums(book: BookView, side: crate::types::Side, limit: nat)
    requires
        book.valid(),
    ensures
        depth(book.side(side), limit).len() <= limit,
        forall|i: int, k: int|
            0 <= i < k < depth(book.side(side), limit).len() ==> better(
                side,
                (#[trigger] depth(book.side(side), limit)[i]).0,
                (#[trigger] depth(book.side(side), limit)[k]).0,
            ),
        forall|i: int|
            0 <= i < depth(book.side(side), limit).len() ==> (#[trigger] depth(book.side(side), limit)[i]).1.units()
                == sum_remaining(book.side(side)[i].orders),
{
    reveal(BookView::valid);
    let d = depth(book.side(side), limit);
    assert forall|i: int, k: int| 0 <= i < k < d.len() implies better(side, (#[trigger] d[i]).0, (#[trigger] d[k]).0) by {
        assert(d[i].0 == book.side(side)[i].price);
        assert(d[k].0 == book.side(side)[k].price);
    }
    assert forall|i: int| 0 <= i < d.len() implies (#[trigger] d[i]).1.units() == sum_remaining(
        book.side(side)[i].orders,
    ) by {
        assert(d[i].1 == book.side(side)[i].total_qty);
    }
}

/// The best price of a side is the best limit price among the orders resting
/// there (the highest bid, the lowest ask, in value), and there is none exactly
/// when nothing rests on that side.
pub proof fn law_best_is_best_resting_price(book: BookView, side: crate::types::Side)
    requires
        book.valid(),
    ensures
        book.best(side) is None <==> forall|i: int, j: int| !#[trigger] book.valid_pos(side, i, j),
        book.best(side) matches Some(p) ==> {
            &&& book.valid_pos(side, 0, 0)
            &&& book.at(side, 0, 0).price.units() == p.units()
            &&& forall|i: int, j: int|
                #[trigger] book.valid_pos(side, i, j) ==> !better(side, book.at(side, i, j).price, p)
        },
{
    reveal(BookView::valid);
    if book.side(side).len() > 0 {
        assert(book.valid_pos(side, 0, 0));
        let p = book.side(side)[0].price;
        assert forall|i: int, j: int| #[trigger] book.valid_pos(side, i, j) implies !better(
            side,
            book.at(side, i, j).price,
            p,
        ) by {
            if i > 0 {
                assert(better(side, book.side(side)[0].price, book.side(side)[i].price));
            }
        }
    }
}

/// Matching neither creates nor destroys quantity: what the taker brings plus
/// what rested before equals twice what was traded (each fill takes the same
/// quantity from the taker and from a resting order) plus what rests afterwards,
/// the taker's leftover included. The book stays valid. (A taker that brings less
/// than nothing and meets no resting order keeps its debt, which rests nowhere;
/// that case is left out.)
pub proof fn law_match_conserves_quantity(book: BookView, taker: Order)
    requires
        book.valid(),
        taker.wf(),
        order_error(book, taker) is None,
        match_order_is_exact(book, taker),
        taker.remaining.units() >= 0 || fill_step(book, taker) is Some,
    ensures
        taker.remaining.units() + book.resting() == 2 * traded_quantity(match_run(book, taker).2) + match_outcome(
            book,
            taker,
        ).resting(),
        match_outcome(book, taker).valid(),
{
    lemma_match_run_facts(book, taker);
    let m = match_run(book, taker);
    if taker.remaining.units() > 0 {
        lemma_match_all_facts(book, taker);
    } else if fill_step(book, taker) is Some {
        lemma_fill_step_facts(book, taker);
    }
    assert(m.1.remaining.units() >= 0);
    if m.1.remaining.units() > 0 {
        lemma_insert_resting_quantity(m.0, m.1);
        if m.0.contains_id(m.1.id) {
            assert(book.contains_id(taker.id));
        }
        lemma_insert_resting_valid(m.0, m.1);
    }
}

/// The order that rests after a match is the incoming order itself, changed only
/// in what it has left: same id, user, symbol, side, price and amount as
/// submitted, its remaining quantity lowered by exactly what traded. A taker left
/// with nothing does not rest.
pub proof fn law_rested_taker_is_the_incoming_order(book: BookView, taker: Order)
    requires
        book.valid(),
        taker.wf(),
        order_error(book, taker) is None,
        match_order_is_exact(book, taker),
    ensures
        match_run(book, taker).1.remaining.units() > 0 ==> {
            let nb = match_outcome(book, taker);
            let o = order_of(nb, taker.id);
            &&& nb.contains_id(taker.id)
            &&& o == Order { remaining: o.remaining, ..taker }
            &&& o.remaining.units() == taker.remaining.units() - traded_quantity(match_run(book, taker).2)
            &&& o.remaining.units() > 0
        },
        match_run(book, taker).1.remaining.units() <= 0 ==> !match_outcome(book, taker).contains_id(taker.id),
{
    lemma_match_run_facts(book, taker);
    let m = match_run(book, taker);
    if m.0.contains_id(taker.id) {
        assert(book.contains_id(taker.id));
    }
    if m.1.remaining.units() > 0 {
        law_cancel_undoes_add(m.0, m.1);
        let nb = m.0.insert_resting(m.1);
        assert(nb == match_outcome(book, taker));
    }
}

/// A stream of match requests run one after another on `book`: the book at the
/// end, what the accepted takers brought (their remaining quantities), and what
/// traded. A refused request changes nothing.
pub open spec fn match_stream(book: BookView, takers: Seq<Order>) -> (BookView, int, int)
    decreases takers.len(),
{
    if takers.len() == 0 {
        (book, 0, 0)
    } else {
        let prev = match_stream(book, takers.drop_last());
        let t = takers.last();
        if order_error(prev.0, t) is None {
            (
                match_outcome(prev.0, t),
                prev.1 + t.remaining.units(),
                prev.2 + traded_quantity(match_run(prev.0, t).2),
            )
        } else {
            prev
        }
    }
}

/// Every accepted request of the stream is matched, and its leftover rested,
/// without rounding, and a taker that brings less than nothing meets a resting
/// order.
pub open spec fn stream_is_admissible(book: BookView, takers: Seq<Order>) -> bool {
    forall|k: int|
        0 <= k < takers.len() ==> {
            let b = (#[trigger] match_stream(book, takers.take(k))).0;
            order_error(b, takers[k]) is None ==> match_order_is_exact(b, takers[k]) && (takers[k].remaining.units()
                >= 0 || fill_step(b, takers[k]) is Some)
        }
}

/// Over a whole stream of match requests, quantity is neither created nor
/// destroyed: what rested at the start plus what the accepted takers brought
/// equals twice what traded plus what rests at the end, and the book stays valid.
pub proof fn law_stream_conserves_quantity(book: BookView, takers: Seq<Order>)
    requires
        book.valid(),
        forall|k: int| 0 <= k < takers.len() ==> (#[trigger] takers[k]).wf(),
        stream_is_admissible(book, takers),
    ensures
        match_stream(book, takers).0.valid(),
        book.resting() + match_stream(book, takers).1 == 2 * match_stream(book, takers).2 + match_stream(
            book,
            takers,
        ).0.resting(),
    decreases takers.len(),
{
    if takers.len() > 0 {
        let n = takers.len() - 1;
        let init = takers.drop_last();
        assert forall|k: int| 0 <= k < init.len() implies {
            let b = (#[trigger] match_stream(book, init.take(k))).0;
            order_error(b, init[k]) is None ==> match_order_is_exact(b, init[k]) && (init[k].remaining.units() >= 0
                || fill_step(b, init[k]) is Some)
        } by {
            assert(init.take(k) =~= takers.take(k));
            assert(init[k] == takers[k]);
            assert(match_stream(book, takers.take(k)) == match_stream(book, takers.take(k)));
        }
        law_stream_conserves_quantity(book, init);
        let prev = match_stream(book, init);
        let t = takers.last();
        assert(takers.take(n) =~= init);
        assert(takers[n] == t);
        assert(match_stream(book, takers.take(n)) == prev);
        if order_error(prev.0, t) is None {
            law_match_conserves_quantity(prev.0, t);
        }
    }
}

/// Cancelling an order right after it was added hands back the order as it was
/// added and leaves the book as it was before (level totals equal in value).
pub proof fn law_cancel_undoes_add(book: BookView, order: Order)
    requires
        book.valid(),
        order.wf(),
        order.remaining.units() > 0,
        !book.contains_id(order.id),
        insert_is_exact(book, order),
    ensures
        ({
            let nb = book.insert_resting(order);
            let (s, i, j) = nb.locate(order.id);
            &&& nb.contains_id(order.id)
            &&& nb.at(s, i, j) == order
            &&& same_book(nb.remove_at(s, i, j), book)
        }),
{
    reveal(BookView::valid);
    let s0 = order.side;
    let levels = book.side(s0);
    let i = seek(levels, s0, order.price) as int;
    lemma_seek(levels, s0, order.price);
    lemma_insert_resting_valid(book, order);
    let nb = book.insert_resting(order);
    assert(nb.side(crate::book_model::opposite(s0)) == book.side(crate::book_model::opposite(s0)));
    if i < levels.len() && levels[i].price.units() == order.price.units() {
        let lv = levels[i];
        let nl = LevelView {
            price: lv.price,
            total_qty: sum_spec(lv.total_qty, order.remaining),
            orders: lv.orders.push(order),
        };
        let j = lv.orders.len() as int;
        assert(nb.side(s0) == levels.update(i, nl));
        assert(nb.valid_pos(s0, i, j) && nb.at(s0, i, j) == order);
        lemma_locate(nb, order.id, s0, i, j);
        assert(book.valid_pos(s0, i, 0));
        assert forall|k: int| 0 <= k < lv.orders.len() implies (#[trigger] lv.orders[k]).remaining.units() >= 0 by {
            assert(book.valid_pos(s0, i, k));
        }
        crate::book_model::lemma_sum_remaining_ge(lv.orders, 0);
        crate::decimal::lemma_sum_units(lv.total_qty, order.remaining);
        assert(nb.valid_pos(s0, i, j));
        crate::decimal::lemma_difference_within(nl.total_qty, order.remaining);
        let after = nb.remove_at(s0, i, j);
        assert(nl.orders.remove(j) =~= lv.orders);
        assert forall|a: int| 0 <= a < after.side(s0).len() implies {
            &&& (#[trigger] after.side(s0)[a]).price == levels[a].price
            &&& after.side(s0)[a].orders == levels[a].orders
            &&& after.side(s0)[a].total_qty.units() == levels[a].total_qty.units()
        } by {
            if a == i {
                assert(after.side(s0)[a] == LevelView {
                    price: lv.price,
                    total_qty: crate::decimal::difference_spec(nl.total_qty, order.remaining),
                    orders: lv.orders,
                });
            }
        }
        match s0 {
            crate::types::Side::Buy => {},
            crate::types::Side::Sell => {},
        }
    } else {
        let nl = LevelView { price: order.price, total_qty: sum_spec(crate::book_model::zero(), order.remaining), orders: seq![order] };
        assert(nb.side(s0) == levels.insert(i, nl));
        assert(nb.valid_pos(s0, i, 0) && nb.at(s0, i, 0) == order);
        lemma_locate(nb, order.id, s0, i, 0);
        let after = nb.remove_at(s0, i, 0);
        assert(nl.orders.remove(0).len() == 0);
        assert(after.side(s0) =~= levels);
        match s0 {
            crate::types::Side::Buy => {},
            crate::types::Side::Sell => {},
        }
    }
}

/// Matching changes resting orders only in their remaining quantity, and never
/// trades an order against one of its own user: every trade's maker rested in the
/// book before the match, on the other side, and belongs to another user than the
/// taker (self-trade prevention).
proof fn lemma_all_no_self_trade(book: BookView, taker: Order)
    requires
        book.valid(),
        taker.wf(),
        match_is_exact(book, taker),
    ensures
        forall|id: u64| #[trigger] match_all(book, taker).0.contains_id(id) ==> same_but_remaining(
            order_of(match_all(book, taker).0, id),
            order_of(book, id),
        ),
        forall|k: int|
            0 <= k < match_all(book, taker).2.len() ==> {
                let mid = (#[trigger] match_all(book, taker).2[k]).maker_order_id;
                &&& book.contains_id(mid)
                &&& order_of(book, mid).user_id != taker.user_id
                &&& order_of(book, mid).side == opposite(taker.side)
            },
    decreases match_measure(book, taker),
{
    lemma_match_all_facts(book, taker);
    if taker.remaining.units() > 0 {
        match fill_step(book, taker) {
            None => {},
            Some(st) => {
                lemma_fill_step_decreases(book, taker);
                lemma_fill_step_facts(book, taker);
                lemma_fill_step_shape(book, taker);
                lemma_fill_step_keeps_orders(book, taker);
                lemma_all_no_self_trade(st.0, st.1);
                lemma_match_all_facts(st.0, st.1);
                let rest = match_all(st.0, st.1);
                let m = match_all(book, taker);
                assert(m == (rest.0, rest.1, seq![st.2] + rest.2));
                let opp = opposite(taker.side);
                reveal(BookView::valid);
                assert(book.valid_pos(opp, 0, 0));
                lemma_locate(book, book.at(opp, 0, 0).id, opp, 0, 0);
                assert forall|id: u64| #[trigger] m.0.contains_id(id) implies same_but_remaining(
                    order_of(m.0, id),
                    order_of(book, id),
                ) by {
                    assert(st.0.contains_id(id));
                }
                assert forall|k: int| 0 <= k < m.2.len() implies {
                    let mid = (#[trigger] m.2[k]).maker_order_id;
                    &&& book.contains_id(mid)
                    &&& order_of(book, mid).user_id != taker.user_id
                    &&& order_of(book, mid).side == opp
                } by {
                    if k > 0 {
                        assert(m.2[k] == rest.2[k - 1]);
                        assert(st.0.contains_id(m.2[k].maker_order_id));
                    }
                }
            },
        }
    }
}

/// Trades execute at the maker's price: every trade of a match is priced at the
/// limit price (in value) of the resting order it filled, never at the taker's.
proof fn lemma_all_trades_at_maker_price(book: BookView, taker: Order)
    requires
        book.valid(),
        taker.wf(),
        match_is_exact(book, taker),
    ensures
        forall|k: int|
            0 <= k < match_all(book, taker).2.len() ==> (#[trigger] match_all(book, taker).2[k]).price.units()
                == order_of(book, match_all(book, taker).2[k].maker_order_id).price.units(),
    decreases match_measure(book, taker),
{
    if taker.remaining.units() > 0 {
        match fill_step(book, taker) {
            None => {},
            Some(st) => {
                lemma_fill_step_decreases(book, taker);
                lemma_fill_step_facts(book, taker);
                lemma_fill_step_shape(book, taker);
                lemma_fill_step_keeps_orders(book, taker);
                lemma_all_trades_at_maker_price(st.0, st.1);
                lemma_all_no_self_trade(st.0, st.1);
                let rest = match_all(st.0, st.1);
                let m = match_all(book, taker);
                assert(m == (rest.0, rest.1, seq![st.2] + rest.2));
                let opp = opposite(taker.side);
                reveal(BookView::valid);
                assert(book.valid_pos(opp, 0, 0));
                lemma_locate(book, book.at(opp, 0, 0).id, opp, 0, 0);
                assert forall|k: int| 0 <= k < m.2.len() implies (#[trigger] m.2[k]).price.units() == order_of(
                    book,
                    m.2[k].maker_order_id,
                ).price.units() by {
                    if k > 0 {
                        assert(m.2[k] == rest.2[k - 1]);
                        assert(st.0.contains_id(m.2[k].maker_order_id));
                    }
                }
            },
        }
    }
}

/// Price priority: a match trades at the best opposite price first and walks
/// away from it; no trade is at a better price than the best opposite level of
/// the book it started from, and each later trade is at a price no better (for
/// the resting side) than every earlier one.
proof fn lemma_all_trades_follow_price_priority(book: BookView, taker: Order)
    requires
        book.valid(),
        taker.wf(),
        match_is_exact(book, taker),
    ensures
        forall|k: int|
            0 <= k < match_all(book, taker).2.len() ==> book.side(opposite(taker.side)).len() > 0 && !better(
                opposite(taker.side),
                (#[trigger] match_all(book, taker).2[k]).price,
                book.side(opposite(taker.side))[0].price,
            ),
        forall|k1: int, k2: int|
            0 <= k1 < k2 < match_all(book, taker).2.len() ==> !better(
                opposite(taker.side),
                (#[trigger] match_all(book, taker).2[k2]).price,
                (#[trigger] match_all(book, taker).2[k1]).price,
            ),
    decreases match_measure(book, taker),
{
    if taker.remaining.units() > 0 {
        match fill_step(book, taker) {
            None => {},
            Some(st) => {
                lemma_fill_step_decreases(book, taker);
                lemma_fill_step_facts(book, taker);
                lemma_fill_step_shape(book, taker);
                lemma_all_trades_follow_price_priority(st.0, st.1);
                let rest = match_all(st.0, st.1);
                let m = match_all(book, taker);
                assert(m == (rest.0, rest.1, seq![st.2] + rest.2));
                let opp = opposite(taker.side);
                let levels = book.side(opp);
                reveal(BookView::valid);
                let p0 = levels[0].price;
                assert(st.2.price == p0);
                if rest.2.len() > 0 {
                    let nb = st.0.side(opp);
                    assert(nb.len() > 0);
                    assert(!better(opp, nb[0].price, p0)) by {
                        if levels.len() > 1 {
                            assert(better(opp, levels[0].price, levels[1].price));
                        }
                    }
                }
                assert forall|k: int| 0 <= k < m.2.len() implies !better(opp, (#[trigger] m.2[k]).price, p0) by {
                    if k > 0 {
                        assert(m.2[k] == rest.2[k - 1]);
                    }
                }
                assert forall|k1: int, k2: int| 0 <= k1 < k2 < m.2.len() implies !better(
                    opp,
                    (#[trigger] m.2[k2]).price,
                    (#[trigger] m.2[k1]).price,
                ) by {
                    assert(m.2[k2] == rest.2[k2 - 1]);
                    if k1 > 0 {
                        assert(m.2[k1] == rest.2[k1 - 1]);
                    }
                }
            },
        }
    }
}

/// Time priority: every trade of a match is against an order that rested on the
/// other side, at a level of the trade's price, and trades at one price take
/// their makers in the order those joined that level's queue.
#[verifier::spinoff_prover]
proof fn lemma_all_trades_follow_time_priority(book: BookView, taker: Order)
    requires
        book.valid(),
        taker.wf(),
        match_is_exact(book, taker),
    ensures
        forall|k: int|
            0 <= k < match_all(book, taker).2.len() ==> {
                let mk = (#[trigger] match_all(book, taker).2[k]).maker_order_id;
                &&& book.contains_id(mk)
                &&& book.locate(mk).0 == opposite(taker.side)
                &&& book.side(opposite(taker.side))[book.locate(mk).1].price.units() == match_all(
                    book,
                    taker,
                ).2[k].price.units()
            },
        forall|k1: int, k2: int|
            0 <= k1 < k2 < match_all(book, taker).2.len() && (#[trigger] match_all(book, taker).2[k1]).price.units()
                == (#[trigger] match_all(book, taker).2[k2]).price.units() ==> {
                let p1 = book.locate(match_all(book, taker).2[k1].maker_order_id);
                let p2 = book.locate(match_all(book, taker).2[k2].maker_order_id);
                p1.1 == p2.1 && p1.2 < p2.2
            },
    decreases match_measure(book, taker),
{
    if taker.remaining.units() > 0 {
        match fill_step(book, taker) {
            None => {},
            Some(st) => {
                lemma_fill_step_decreases(book, taker);
                lemma_fill_step_facts(book, taker);
                lemma_fill_step_shape(book, taker);
                lemma_fill_step_keeps_orders(book, taker);
                lemma_all_trades_follow_time_priority(st.0, st.1);
                lemma_match_all_facts(st.0, st.1);
                lemma_time_priority_step(book, taker);
            },
        }
    }
}

/// One step of the time-priority law: the first trade's maker heads the best
/// level, and the makers of later trades, placed in the book after the step,
/// sit in the book before it at the same levels in the same order.
#[verifier::spinoff_prover]
proof fn lemma_time_priority_step(book: BookView, taker: Order)
    requires
        book.valid(),
        taker.wf(),
        taker.remaining.units() > 0,
        fill_step(book, taker) is Some,
        match_is_exact(book, taker),
        ({
            let st = fill_step(book, taker).unwrap();
            let rest = match_all(st.0, st.1);
            &&& st.0.valid()
            &&& st.1 == Order { remaining: st.1.remaining, ..taker }
            &&& st.1.remaining.units() == taker.remaining.units() - st.2.amount.units()
            &&& st.2.amount == crate::book_model::step_fill(book, taker)
            &&& forall|id: u64| #[trigger] st.0.contains_id(id) ==> {
                &&& book.contains_id(id)
                &&& book.locate(id) == crate::book_model::step_origin(book, taker, st.0.locate(id))
            }
            &&& forall|k: int|
                0 <= k < rest.2.len() ==> {
                    let mk = (#[trigger] rest.2[k]).maker_order_id;
                    &&& st.0.contains_id(mk)
                    &&& st.0.locate(mk).0 == opposite(taker.side)
                    &&& st.0.side(opposite(taker.side))[st.0.locate(mk).1].price.units() == rest.2[k].price.units()
                }
            &&& forall|k1: int, k2: int|
                0 <= k1 < k2 < rest.2.len() && (#[trigger] rest.2[k1]).price.units() == (
                #[trigger] rest.2[k2]).price.units() ==> {
                    let p1 = st.0.locate(rest.2[k1].maker_order_id);
                    let p2 = st.0.locate(rest.2[k2].maker_order_id);
                    p1.1 == p2.1 && p1.2 < p2.2
                }
        }),
    ensures
        forall|k: int|
            0 <= k < match_all(book, taker).2.len() ==> {
                let mk = (#[trigger] match_all(book, taker).2[k]).maker_order_id;
                &&& book.contains_id(mk)
                &&& book.locate(mk).0 == opposite(taker.side)
                &&& book.side(opposite(taker.side))[book.locate(mk).1].price.units() == match_all(
                    book,
                    taker,
                ).2[k].price.units()
            },
        forall|k1: int, k2: int|
            0 <= k1 < k2 < match_all(book, taker).2.len() && (#[trigger] match_all(book, taker).2[k1]).price.units()
                == (#[trigger] match_all(book, taker).2[k2]).price.units() ==> {
                let p1 = book.locate(match_all(book, taker).2[k1].maker_order_id);
                let p2 = book.locate(match_all(book, taker).2[k2].maker_order_id);
                p1.1 == p2.1 && p1.2 < p2.2
            },
{
    reveal(BookView::valid);
    lemma_fill_step_shape(book, taker);
    let st = fill_step(book, taker).unwrap();
    let rest = match_all(st.0, st.1);
    let m = match_all(book, taker);
    assert(m == (rest.0, rest.1, seq![st.2] + rest.2));
    let opp = opposite(taker.side);
    let levels = book.side(opp);
    let lv = levels[0];
    let maker = lv.orders[0];
    let fill = crate::book_model::step_fill(book, taker);
    let left = crate::decimal::difference_spec(maker.remaining, fill);
    assert(book.valid_pos(opp, 0, 0));
    lemma_locate(book, maker.id, opp, 0, 0);
    assert(crate::book_model::step_is_exact(book, taker));
    crate::decimal::lemma_difference_units(maker.remaining, fill);
    if left.units() > 0 {
        assert(st.1.remaining.units() == 0);
        assert(rest.2.len() == 0);
    } else if st.0.contains_id(maker.id) {
        assert(book.locate(maker.id) == crate::book_model::step_origin(book, taker, st.0.locate(maker.id)));
        assert(false);
    }
    let sv = st.0.side(opp);
    assert forall|i: int| 0 <= i < sv.len() implies (#[trigger] sv[i]).price == levels[crate::book_model::step_origin(
        book,
        taker,
        (opp, i, 0),
    ).1].price by {
        if left.units() <= 0 && lv.orders.len() == 1 {
            assert(sv == levels.remove(0));
        }
    }
    assert forall|k: int| 0 <= k < m.2.len() implies {
        let mk = (#[trigger] m.2[k]).maker_order_id;
        &&& book.contains_id(mk)
        &&& book.locate(mk).0 == opp
        &&& levels[book.locate(mk).1].price.units() == m.2[k].price.units()
    } by {
        if k > 0 {
            assert(m.2[k] == rest.2[k - 1]);
            let mk = rest.2[k - 1].maker_order_id;
            let q = st.0.locate(mk);
            assert(sv[q.1].price == levels[crate::book_model::step_origin(book, taker, (opp, q.1, 0)).1].price);
        }
    }
    assert forall|k1: int, k2: int|
        0 <= k1 < k2 < m.2.len() && (#[trigger] m.2[k1]).price.units() == (#[trigger] m.2[k2]).price.units() implies {
        let p1 = book.locate(m.2[k1].maker_order_id);
        let p2 = book.locate(m.2[k2].maker_order_id);
        p1.1 == p2.1 && p1.2 < p2.2
    } by {
        assert(m.2[k2] == rest.2[k2 - 1]);
        let mk2 = rest.2[k2 - 1].maker_order_id;
        let q2 = st.0.locate(mk2);
        assert(sv[q2.1].price == levels[crate::book_model::step_origin(book, taker, (opp, q2.1, 0)).1].price);
        if k1 == 0 {
            let p2 = book.locate(mk2);
            if p2.1 > 0 {
                assert(better(opp, levels[0].price, levels[p2.1].price));
            }
            assert(p2.1 == 0);
            if p2.2 == 0 {
                assert(book.at(opp, 0, 0).id == mk2);
            }
        } else {
            assert(m.2[k1] == rest.2[k1 - 1]);
        }
    }
}

} // verus!

verus! {

/// The single step of a taker with nothing left: its trade is with the order at
/// the head of the best opposite level, at that level's price, and the book
/// changes no order but in its remaining quantity.
proof fn lemma_degenerate_step(book: BookView, taker: Order)
    requires
        book.valid(),
        taker.wf(),
        taker.remaining.units() <= 0,
        fill_step(book, taker) is Some,
        step_is_exact(book, taker),
    ensures
        ({
            let st = fill_step(book, taker).unwrap();
            let opp = opposite(taker.side);
            &&& book.valid_pos(opp, 0, 0)
            &&& st.2.maker_order_id == book.at(opp, 0, 0).id
            &&& st.2.price == book.side(opp)[0].price
            &&& book.at(opp, 0, 0).price.units() == book.side(opp)[0].price.units()
            &&& book.at(opp, 0, 0).user_id != taker.user_id
            &&& book.at(opp, 0, 0).side == opp
            &&& book.contains_id(st.2.maker_order_id)
            &&& book.locate(st.2.maker_order_id) == (opp, 0int, 0int)
            &&& order_of(book, st.2.maker_order_id) == book.at(opp, 0, 0)
            &&& forall|id: u64| #[trigger] st.0.contains_id(id) ==> same_but_remaining(
                order_of(st.0, id),
                order_of(book, id),
            )
        }),
{
    lemma_fill_step_facts(book, taker);
    lemma_fill_step_shape(book, taker);
    lemma_fill_step_keeps_orders(book, taker);
    let opp = opposite(taker.side);
    reveal(BookView::valid);
    assert(book.valid_pos(opp, 0, 0));
    lemma_locate(book, book.at(opp, 0, 0).id, opp, 0, 0);
}

/// Matching changes resting orders only in their remaining quantity, and never
/// trades an order against one of its own user: every trade's maker rested in the
/// book before the match, on the other side, and belongs to another user than the
/// taker (self-trade prevention).
pub proof fn law_no_self_trade(book: BookView, taker: Order)
    requires
        book.valid(),
        taker.wf(),
        run_is_exact(book, taker),
    ensures
        forall|id: u64| #[trigger] match_run(book, taker).0.contains_id(id) ==> same_but_remaining(
            order_of(match_run(book, taker).0, id),
            order_of(book, id),
        ),
        forall|k: int|
            0 <= k < match_run(book, taker).2.len() ==> {
                let mid = (#[trigger] match_run(book, taker).2[k]).maker_order_id;
                &&& book.contains_id(mid)
                &&& order_of(book, mid).user_id != taker.user_id
                &&& order_of(book, mid).side == opposite(taker.side)
            },
{
    if taker.remaining.units() > 0 {
        lemma_all_no_self_trade(book, taker);
    } else if fill_step(book, taker) is Some {
        lemma_degenerate_step(book, taker);
    }
}

/// Trades execute at the maker's price: every trade of a match is priced at the
/// limit price (in value) of the resting order it filled, never at the taker's.
pub proof fn law_trades_at_maker_price(book: BookView, taker: Order)
    requires
        book.valid(),
        taker.wf(),
        run_is_exact(book, taker),
    ensures
        forall|k: int|
            0 <= k < match_run(book, taker).2.len() ==> (#[trigger] match_run(book, taker).2[k]).price.units()
                == order_of(book, match_run(book, taker).2[k].maker_order_id).price.units(),
{
    if taker.remaining.units() > 0 {
        lemma_all_trades_at_maker_price(book, taker);
    } else if fill_step(book, taker) is Some {
        lemma_degenerate_step(book, taker);
    }
}

/// Price priority: a match trades at the best opposite price first and walks
/// away from it; no trade is at a better price than the best opposite level of
/// the book it started from, and each later trade is at a price no better (for
/// the resting side) than every earlier one.
pub proof fn law_trades_follow_price_priority(book: BookView, taker: Order)
    requires
        book.valid(),
        taker.wf(),
        run_is_exact(book, taker),
    ensures
        forall|k: int|
            0 <= k < match_run(book, taker).2.len() ==> book.side(opposite(taker.side)).len() > 0 && !better(
                opposite(taker.side),
                (#[trigger] match_run(book, taker).2[k]).price,
                book.side(opposite(taker.side))[0].price,
            ),
        forall|k1: int, k2: int|
            0 <= k1 < k2 < match_run(book, taker).2.len() ==> !better(
                opposite(taker.side),
                (#[trigger] match_run(book, taker).2[k2]).price,
                (#[trigger] match_run(book, taker).2[k1]).price,
            ),
{
    if taker.remaining.units() > 0 {
        lemma_all_trades_follow_price_priority(book, taker);
    } else if fill_step(book, taker) is Some {
        lemma_degenerate_step(book, taker);
    }
}

/// Time priority: every trade of a match is against an order that rested on the
/// other side, at a level of the trade's price, and trades at one price take
/// their makers in the order those joined that level's queue.
pub proof fn law_trades_follow_time_priority(book: BookView, taker: Order)
    requires
        book.valid(),
        taker.wf(),
        run_is_exact(book, taker),
    ensures
        forall|k: int|
            0 <= k < match_run(book, taker).2.len() ==> {
                let mk = (#[trigger] match_run(book, taker).2[k]).maker_order_id;
                &&& book.contains_id(mk)
                &&& book.locate(mk).0 == opposite(taker.side)
                &&& book.side(opposite(taker.side))[book.locate(mk).1].price.units() == match_run(
                    book,
                    taker,
                ).2[k].price.units()
            },
        forall|k1: int, k2: int|
            0 <= k1 < k2 < match_run(book, taker).2.len() && (#[trigger] match_run(book, taker).2[k1]).price.units()
                == (#[trigger] match_run(book, taker).2[k2]).price.units() ==> {
                let p1 = book.locate(match_run(book, taker).2[k1].maker_order_id);
                let p2 = book.locate(match_run(book, taker).2[k2].maker_order_id);
                p1.1 == p2.1 && p1.2 < p2.2
            },
{
    if taker.remaining.units() > 0 {
        lemma_all_trades_follow_time_priority(book, taker);
    } else if fill_step(book, taker) is Some {
        lemma_degenerate_step(book, taker);
    }
}

} // verus!

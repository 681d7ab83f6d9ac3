//! The matching engine's order book: price levels on each side kept in priority
//! order, a FIFO queue of slot keys per level, the orders themselves in a slot map,
//! and an index from order id to slot key.

use vstd::prelude::*;

use std::collections::HashMap;

use crate::arena::{slot_contents, slots_get, slots_insert, slots_new, slots_remove, slots_set, OrderNode, OrderSlots};
use crate::book_model::{
    better, crosses, depth, fill_step, insert_is_exact, lemma_fill_step_decreases, lemma_fill_step_facts,
    lemma_fill_step_shape, lemma_insert_resting_count, lemma_insert_resting_ids, lemma_insert_resting_valid,
    lemma_locate, lemma_match_run_facts, lemma_remove_at_count, lemma_remove_at_ids, lemma_remove_at_valid,
    lemma_seek, lemma_seek_level, level_orders, match_all, match_is_exact, match_measure, match_order_is_exact,
    match_outcome, match_run, opposite, order_error, orders_at, seek, step_is_exact, zero, BookView, LevelView,
};
use crate::decimal::{difference_spec, exact_add, exact_sub, value_eq, value_le, value_lt, Decimal};
use crate::types::{EngineError, Order, Side, Trade};

verus! {

broadcast use vstd::std_specs::hash::group_hash_axioms;

/// One price level: its price, the running total of what its orders have left,
/// and the slot keys of its orders in arrival order.
struct PriceLevel {
    price: Decimal,
    total_qty: Decimal,
    queue: Vec<u64>,
}

/// A limit order book for one symbol.
pub struct OrderBook {
    bids: Vec<PriceLevel>,
    asks: Vec<PriceLevel>,
    orders: OrderSlots,
    /// Maps order id to slot key.
    order_map: HashMap<u64, u64>,
    best_bid_price: Option<Decimal>,
    best_ask_price: Option<Decimal>,
}

/// The model of one side, given the stored orders.
closed spec fn side_view(slots: Map<u64, OrderNode>, levels: Seq<PriceLevel>) -> Seq<LevelView> {
    levels.map_values(
        |lv: PriceLevel|
            LevelView {
                price: lv.price,
                total_qty: lv.total_qty,
                orders: lv.queue@.map_values(|k: u64| slots[k].order),
            },
    )
}

impl View for OrderBook {
    type V = BookView;

    closed spec fn view(&self) -> BookView {
        BookView {
            bids: side_view(slot_contents(self.orders), self.bids@),
            asks: side_view(slot_contents(self.orders), self.asks@),
        }
    }
}

impl OrderBook {
    closed spec fn slots(&self) -> Map<u64, OrderNode> {
        slot_contents(self.orders)
    }

    closed spec fn levels(&self, side: Side) -> Seq<PriceLevel> {
        match side {
            Side::Buy => self.bids@,
            Side::Sell => self.asks@,
        }
    }

    closed spec fn best_cache(&self, side: Side) -> Option<Decimal> {
        match side {
            Side::Buy => self.best_bid_price,
            Side::Sell => self.best_ask_price,
        }
    }

    /// The stored orders, their index and the cached best prices agree with the
    /// levels, and the model is a valid book.
    pub closed spec fn wf(&self) -> bool {
        &&& self@.valid()
        &&& forall|s: Side, i: int, j: int|
            0 <= i < self.levels(s).len() && 0 <= j < self.levels(s)[i].queue@.len()
                ==> #[trigger] self.node_ok(s, self.levels(s)[i].queue@[j])
        &&& forall|id: u64| #[trigger] self.order_map@.contains_key(id) ==> self@.contains_id(id)
        &&& self.order_map@.len() == self@.count()
        &&& self.slots().len() == self@.count()
        &&& self.slots().dom().finite()
        &&& forall|s: Side| #[trigger] self.best_cache(s) == self@.best(s)
    }

    /// The book behind a well-formed `OrderBook` is valid, so every law over valid
    /// books holds of it.
    pub proof fn lemma_wf_valid(&self)
        requires
            self.wf(),
        ensures
            self@.valid(),
    {
    }

    /// The order stored under key `k` rests on side `s` and is indexed by its id.
    closed spec fn node_ok(&self, s: Side, k: u64) -> bool {
        let n = self.slots()[k];
        &&& self.slots().contains_key(k)
        &&& n.side == s
        &&& n.price == n.order.price
        &&& self.order_map@.contains_key(n.order.id)
        &&& self.order_map@[n.order.id] == k
    }

    /// An empty book.
    pub fn new() -> (r: OrderBook)
        ensures
            r.wf(),
            r@.bids.len() == 0,
            r@.asks.len() == 0,
    {
        let r = OrderBook {
            bids: Vec::new(),
            asks: Vec::new(),
            orders: slots_new(),
            order_map: HashMap::new(),
            best_bid_price: None,
            best_ask_price: None,
        };
        proof {
            assert(r@.bids =~= Seq::<LevelView>::empty());
            assert(r@.asks =~= Seq::<LevelView>::empty());
            assert(r.slots().dom() =~= Set::<u64>::empty());
        }
        r
    }

    /// Best (highest) bid price, or `None` if the book has no buy orders.
    pub fn best_bid(&self) -> (r: Option<Decimal>)
        requires
            self.wf(),
        ensures
            r == self@.best(Side::Buy),
    {
        assert(self.best_cache(Side::Buy) == self@.best(Side::Buy));
        self.best_bid_price
    }

    /// Best (lowest) ask price, or `None` if the book has no sell orders.
    pub fn best_ask(&self) -> (r: Option<Decimal>)
        requires
            self.wf(),
        ensures
            r == self@.best(Side::Sell),
    {
        assert(self.best_cache(Side::Sell) == self@.best(Side::Sell));
        self.best_ask_price
    }

    /// Total number of live orders tracked by the order map.
    pub fn len(&self) -> (r: usize)
        requires
            self.wf(),
        ensures
            r == self@.count(),
    {
        self.order_map.len()
    }

    /// Whether no order rests in the book.
    pub fn is_empty(&self) -> (r: bool)
        requires
            self.wf(),
        ensures
            r == (self@.count() == 0),
    {
        self.order_map.len() == 0
    }
}

/// Whether `a` has priority over `b` on `side`.
fn is_better(side: Side, a: &Decimal, b: &Decimal) -> (r: bool)
    requires
        a.wf(),
        b.wf(),
    ensures
        r == better(side, *a, *b),
{
    match side {
        Side::Buy => value_lt(b, a),
        Side::Sell => value_lt(a, b),
    }
}

/// Old slot contents that every queued key still maps to the same order.
proof fn lemma_side_view_frame(s1: Map<u64, OrderNode>, s2: Map<u64, OrderNode>, levels: Seq<PriceLevel>)
    requires
        forall|i: int, j: int|
            0 <= i < levels.len() && 0 <= j < levels[i].queue@.len() ==> s2[#[trigger] levels[i].queue@[j]].order
                == s1[levels[i].queue@[j]].order,
    ensures
        side_view(s1, levels) == side_view(s2, levels),
{
    assert forall|i: int| 0 <= i < levels.len() implies side_view(s1, levels)[i] == side_view(s2, levels)[i] by {
        assert(side_view(s1, levels)[i].orders =~= side_view(s2, levels)[i].orders);
    }
    assert(side_view(s1, levels) =~= side_view(s2, levels));
}

impl OrderBook {
    /// Index of the first level of `side` whose price has no priority over `price`.
    fn seek_level(&self, side: Side, price: &Decimal) -> (i: usize)
        requires
            self.wf(),
            price.wf(),
        ensures
            i == seek(self@.side(side), side, *price),
    {
        let levels = match side {
            Side::Buy => &self.bids,
            Side::Sell => &self.asks,
        };
        let ghost lv = self@.side(side);
        assert(levels@ == self.levels(side));
        let mut i: usize = 0;
        while i < levels.len() && is_better(side, &levels[i].price, price)
            invariant
                self.wf(),
                levels@ == self.levels(side),
                lv == self@.side(side),
                lv.len() == levels@.len(),
                price.wf(),
                i <= levels.len(),
                forall|k: int| 0 <= k < i ==> better(side, #[trigger] lv[k].price, *price),
                forall|k: int| 0 <= k < levels.len() ==> #[trigger] levels@[k].price == lv[k].price,
            decreases levels.len() - i,
        {
            assert(lv[i as int].price.wf());
            i = i + 1;
        }
        proof {
            lemma_seek(lv, side, *price);
            let sk = seek(lv, side, *price);
            if sk < i {
                assert(better(side, lv[sk as int].price, *price));
            }
            if (i as int) < sk {
                assert(better(side, lv[i as int].price, *price));
            }
        }
        i
    }
}

impl OrderBook {
    /// Adds an empty level at index `i` of `side` and moves the cached best price
    /// to it when the side was empty or the new price has priority.
    fn insert_level(&mut self, side: Side, i: usize, price: Decimal)
        requires
            i <= old(self).levels(side).len(),
            price.wf(),
            old(self).best_cache(side) matches Some(b) ==> b.wf(),
        ensures
            final(self).levels(side).len() == old(self).levels(side).len() + 1,
            final(self).levels(side)[i as int].price == price,
            final(self).levels(side)[i as int].total_qty == zero(),
            final(self).levels(side)[i as int].queue@.len() == 0,
            forall|k: int| 0 <= k < i ==> #[trigger] final(self).levels(side)[k] == old(self).levels(side)[k],
            forall|k: int|
                i < k < final(self).levels(side).len() ==> #[trigger] final(self).levels(side)[k] == old(self).levels(side)[k - 1],
            final(self).levels(opposite(side)) == old(self).levels(opposite(side)),
            final(self).best_cache(opposite(side)) == old(self).best_cache(opposite(side)),
            final(self).best_cache(side) == (if old(self).best_cache(side) is None || better(
                side,
                price,
                old(self).best_cache(side).unwrap(),
            ) {
                Some(price)
            } else {
                old(self).best_cache(side)
            }),
            final(self).orders == old(self).orders,
            final(self).order_map == old(self).order_map,
    {
        let level = PriceLevel { price, total_qty: Decimal::zero(), queue: Vec::new() };
        match side {
            Side::Buy => {
                self.bids.insert(i, level);
                let upd = match self.best_bid_price {
                    None => true,
                    Some(b) => is_better(side, &price, &b),
                };
                if upd {
                    self.best_bid_price = Some(price);
                }
            },
            Side::Sell => {
                self.asks.insert(i, level);
                let upd = match self.best_ask_price {
                    None => true,
                    Some(b) => is_better(side, &price, &b),
                };
                if upd {
                    self.best_ask_price = Some(price);
                }
            },
        }
    }
}

impl OrderBook {
    /// Puts a validated order on its side without matching it: at the tail of the
    /// queue of the level at its price, creating the level if needed, and records
    /// its id.
    fn insert_resting_order(&mut self, order: Order)
        requires
            old(self).wf(),
            order.wf(),
            order.remaining.units() > 0,
            !old(self)@.contains_id(order.id),
            insert_is_exact(old(self)@, order),
            old(self)@.count() + 3 < u32::MAX,
        ensures
            final(self).wf(),
            final(self)@ == old(self)@.insert_resting(order),
    {
        let ghost book0 = self@;
        let ghost old_self = *self;
        let ghost order0 = order;
        let ghost slots0 = self.slots();
        let ghost om0 = self.order_map@;
        let side = order.side;
        let price = order.price;
        let order_id = order.id;
        let remaining = order.remaining;
        let i = self.seek_level(side, &price);
        proof {
            lemma_seek(book0.side(side), side, price);
        }
        let exists = match side {
            Side::Buy => i < self.bids.len() && value_eq(&self.bids[i].price, &price),
            Side::Sell => i < self.asks.len() && value_eq(&self.asks[i].price, &price),
        };
        let ghost lv0 = self.levels(side);
        if !exists {
            proof {
                assert(self.best_cache(side) == book0.best(side));
            }
            self.insert_level(side, i, price);
        }
        let ghost lv1 = self.levels(side);
        proof {
            if exists {
                assert(lv1 == lv0);
                assert(book0.valid_pos(side, i as int, 0));
            }
            assert(self.slots() == slots0);
            crate::decimal::lemma_zero_units(lv1[i as int].total_qty);
        }
        let key = slots_insert(&mut self.orders, OrderNode { order, side, price });
        match side {
            Side::Buy => {
                self.bids[i].queue.push(key);
                let t = exact_add(&self.bids[i].total_qty, &remaining);
                self.bids[i].total_qty = t;
            },
            Side::Sell => {
                self.asks[i].queue.push(key);
                let t = exact_add(&self.asks[i].total_qty, &remaining);
                self.asks[i].total_qty = t;
            },
        }
        self.order_map.insert(order_id, key);
        proof {
            assert(self.levels(side)[i as int].queue@ =~= lv1[i as int].queue@.push(key));
            assert(forall|k: int|
                0 <= k < self.levels(side).len() && k != i ==> #[trigger] self.levels(side)[k] == lv1[k]);
            if !exists {
                assert(lv1[i as int].queue@.push(key) =~= seq![key]);
            }
            self.lemma_after_insert(old_self, order0, i as int, key, exists);
        }
    }

    /// The state right after an order was stored and queued at level `i`.
    closed spec fn insert_post(&self, old_self: OrderBook, order: Order, i: int, key: u64, exists: bool) -> bool {
        &&& old_self.wf()
        &&& order.wf()
        &&& order.remaining.units() > 0
        &&& !old_self@.contains_id(order.id)
        &&& insert_is_exact(old_self@, order)
        &&& i == seek(old_self@.side(order.side), order.side, order.price)
        &&& exists == (i < old_self@.side(order.side).len() && old_self@.side(order.side)[i].price.units()
            == order.price.units())
        &&& !old_self.slots().contains_key(key)
        &&& self.slots() == old_self.slots().insert(key, OrderNode { order, side: order.side, price: order.price })
        &&& self.order_map@ == old_self.order_map@.insert(order.id, key)
        &&& self.levels(opposite(order.side)) == old_self.levels(opposite(order.side))
        &&& self.best_cache(opposite(order.side)) == old_self.best_cache(opposite(order.side))
        &&& exists ==> {
            &&& self.levels(order.side).len() == old_self.levels(order.side).len()
            &&& forall|k: int|
                0 <= k < self.levels(order.side).len() && k != i ==> #[trigger] self.levels(order.side)[k]
                    == old_self.levels(order.side)[k]
            &&& self.levels(order.side)[i].price == old_self.levels(order.side)[i].price
            &&& self.levels(order.side)[i].total_qty == crate::decimal::sum_spec(
                old_self.levels(order.side)[i].total_qty,
                order.remaining,
            )
            &&& self.levels(order.side)[i].queue@ == old_self.levels(order.side)[i].queue@.push(key)
            &&& self.best_cache(order.side) == old_self.best_cache(order.side)
        }
        &&& !exists ==> {
            &&& self.levels(order.side).len() == old_self.levels(order.side).len() + 1
            &&& forall|k: int| 0 <= k < i ==> #[trigger] self.levels(order.side)[k] == old_self.levels(order.side)[k]
            &&& forall|k: int|
                i < k < self.levels(order.side).len() ==> #[trigger] self.levels(order.side)[k]
                    == old_self.levels(order.side)[k - 1]
            &&& self.levels(order.side)[i].price == order.price
            &&& self.levels(order.side)[i].total_qty == crate::decimal::sum_spec(zero(), order.remaining)
            &&& self.levels(order.side)[i].queue@ == seq![key]
            &&& self.best_cache(order.side) == (if old_self.best_cache(order.side) is None || better(
                order.side,
                order.price,
                old_self.best_cache(order.side).unwrap(),
            ) {
                Some(order.price)
            } else {
                old_self.best_cache(order.side)
            })
        }
    }

    proof fn lemma_insert_frame(&self, old_self: OrderBook, order: Order, i: int, key: u64, exists: bool)
        requires
            self.insert_post(old_self, order, i, key, exists),
        ensures
            forall|s: Side, a: int, j: int|
                0 <= a < old_self.levels(s).len() && 0 <= j < old_self.levels(s)[a].queue@.len() ==> {
                    &&& #[trigger] old_self.levels(s)[a].queue@[j] != key
                    &&& self.slots()[old_self.levels(s)[a].queue@[j]] == old_self.slots()[old_self.levels(s)[a].queue@[j]]
                    &&& old_self.node_ok(s, old_self.levels(s)[a].queue@[j])
                },
    {
        assert forall|s: Side, a: int, j: int|
            0 <= a < old_self.levels(s).len() && 0 <= j < old_self.levels(s)[a].queue@.len() implies {
                &&& #[trigger] old_self.levels(s)[a].queue@[j] != key
                &&& self.slots()[old_self.levels(s)[a].queue@[j]] == old_self.slots()[old_self.levels(s)[a].queue@[j]]
                &&& old_self.node_ok(s, old_self.levels(s)[a].queue@[j])
            } by {
            assert(old_self.node_ok(s, old_self.levels(s)[a].queue@[j]));
        }
    }

    #[verifier::spinoff_prover]
    proof fn lemma_insert_view(&self, old_self: OrderBook, order: Order, i: int, key: u64, exists: bool)
        requires
            self.insert_post(old_self, order, i, key, exists),
        ensures
            self@ == old_self@.insert_resting(order),
    {
        let s0 = order.side;
        let opp = opposite(s0);
        self.lemma_insert_frame(old_self, order, i, key, exists);
        assert forall|a: int, j: int|
            0 <= a < old_self.levels(s0).len() && 0 <= j < old_self.levels(s0)[a].queue@.len() implies self.slots()[#[trigger] old_self.levels(s0)[a].queue@[j]]
                == old_self.slots()[old_self.levels(s0)[a].queue@[j]] by {}
        assert forall|a: int, j: int|
            0 <= a < old_self.levels(opp).len() && 0 <= j < old_self.levels(opp)[a].queue@.len() implies self.slots()[#[trigger] old_self.levels(opp)[a].queue@[j]]
                == old_self.slots()[old_self.levels(opp)[a].queue@[j]] by {}
        assert(old_self@.side(s0) == side_view(old_self.slots(), old_self.levels(s0)));
        assert(old_self@.side(opp) == side_view(old_self.slots(), old_self.levels(opp)));
        lemma_insert_view_free(
            old_self@,
            old_self.slots(),
            self.slots(),
            old_self.levels(s0),
            self.levels(s0),
            old_self.levels(opp),
            i,
            key,
            order,
            exists,
        );
        assert(self@.side(s0) == side_view(self.slots(), self.levels(s0)));
        assert(self@.side(opp) == side_view(self.slots(), self.levels(opp)));
        let nb = old_self@.insert_resting(order);
        assert(self@.side(s0) == nb.side(s0));
        assert(self@.side(opp) == nb.side(opp));
        match s0 {
            Side::Buy => {
                assert(self@.bids == nb.bids);
                assert(self@.asks == nb.asks);
            },
            Side::Sell => {
                assert(self@.bids == nb.bids);
                assert(self@.asks == nb.asks);
            },
        }
    }

    #[verifier::spinoff_prover]
    proof fn lemma_insert_nodes(&self, old_self: OrderBook, order: Order, i: int, key: u64, exists: bool)
        requires
            self.insert_post(old_self, order, i, key, exists),
        ensures
            forall|s: Side, a: int, j: int|
                0 <= a < self.levels(s).len() && 0 <= j < self.levels(s)[a].queue@.len() ==> #[trigger] self.node_ok(
                    s,
                    self.levels(s)[a].queue@[j],
                ),
    {
        let s0 = order.side;
        let book0 = old_self@;
        let slots0 = old_self.slots();
        lemma_seek(book0.side(s0), s0, order.price);
        self.lemma_insert_frame(old_self, order, i, key, exists);
        assert(!old_self.order_map@.contains_key(order.id));
        assert forall|s: Side, a: int, j: int|
            0 <= a < self.levels(s).len() && 0 <= j < self.levels(s)[a].queue@.len() implies #[trigger] self.node_ok(
                s,
                self.levels(s)[a].queue@[j],
            ) by {
            let k = self.levels(s)[a].queue@[j];
            if s == s0 && a == i && j == self.levels(s)[a].queue@.len() - 1 {
                assert(k == key);
            } else {
                let a0 = if s == s0 && !exists && a > i { a - 1 } else { a };
                if s != s0 {
                    assert(s == opposite(s0));
                }
                assert(k == old_self.levels(s)[a0].queue@[j]);
                assert(old_self.node_ok(s, k));
                assert(book0.valid_pos(s, a0, j));
                assert(book0.at(s, a0, j) == slots0[k].order);
                assert(book0.contains_id(slots0[k].order.id));
            }
        }
    }

    proof fn lemma_after_insert(&self, old_self: OrderBook, order: Order, i: int, key: u64, exists: bool)
        requires
            self.insert_post(old_self, order, i, key, exists),
        ensures
            self.wf(),
            self@ == old_self@.insert_resting(order),
    {
        let s0 = order.side;
        let opp = opposite(s0);
        let book0 = old_self@;
        lemma_seek(book0.side(s0), s0, order.price);
        lemma_insert_resting_valid(book0, order);
        lemma_insert_resting_count(book0, order);
        self.lemma_insert_view(old_self, order, i, key, exists);
        self.lemma_insert_nodes(old_self, order, i, key, exists);
        assert(!old_self.order_map@.contains_key(order.id));
        assert forall|id: u64| #[trigger] self.order_map@.contains_key(id) implies self@.contains_id(id) by {
            lemma_insert_resting_ids(book0, order, id);
        }
        assert(self.best_cache(s0) == self@.best(s0)) by {
            assert(old_self.best_cache(s0) == book0.best(s0));
            if !exists && book0.side(s0).len() > 0 {
                if i == 0 {
                    assert(!better(s0, book0.side(s0)[0].price, order.price));
                } else {
                    assert(better(s0, book0.side(s0)[0].price, order.price));
                }
            }
        }
        assert(self.best_cache(opp) == self@.best(opp)) by {
            assert(old_self.best_cache(opp) == book0.best(opp));
        }
        assert forall|s: Side| #[trigger] self.best_cache(s) == self@.best(s) by {
            if s != s0 {
                assert(s == opp);
            }
        }
    }
}

/// The model of a side after one key joined the queue of level `i` (an existing
/// level, or a new one inserted at `i`), level by level.
#[verifier::spinoff_prover]
proof fn lemma_queue_push_view(
    slots0: Map<u64, OrderNode>,
    slots1: Map<u64, OrderNode>,
    ol: Seq<PriceLevel>,
    sl: Seq<PriceLevel>,
    i: int,
    key: u64,
    order: Order,
    exists: bool,
    a: int,
)
    requires
        forall|b: int, j: int|
            0 <= b < ol.len() && 0 <= j < ol[b].queue@.len() ==> slots1[#[trigger] ol[b].queue@[j]]
                == slots0[ol[b].queue@[j]],
        slots1[key].order == order,
        0 <= i,
        exists ==> {
            &&& i < ol.len()
            &&& sl.len() == ol.len()
            &&& forall|k: int| 0 <= k < sl.len() && k != i ==> #[trigger] sl[k] == ol[k]
            &&& sl[i].price == ol[i].price
            &&& sl[i].total_qty == crate::decimal::sum_spec(ol[i].total_qty, order.remaining)
            &&& sl[i].queue@ == ol[i].queue@.push(key)
        },
        !exists ==> {
            &&& i <= ol.len()
            &&& sl.len() == ol.len() + 1
            &&& forall|k: int| 0 <= k < i ==> #[trigger] sl[k] == ol[k]
            &&& forall|k: int| i < k < sl.len() ==> #[trigger] sl[k] == ol[k - 1]
            &&& sl[i].price == order.price
            &&& sl[i].total_qty == crate::decimal::sum_spec(zero(), order.remaining)
            &&& sl[i].queue@ == seq![key]
        },
        0 <= a < sl.len(),
    ensures
        side_view(slots1, sl)[a] == (if exists {
            side_view(slots0, ol).update(
                i,
                LevelView {
                    price: side_view(slots0, ol)[i].price,
                    total_qty: crate::decimal::sum_spec(side_view(slots0, ol)[i].total_qty, order.remaining),
                    orders: side_view(slots0, ol)[i].orders.push(order),
                },
            )
        } else {
            side_view(slots0, ol).insert(
                i,
                LevelView {
                    price: order.price,
                    total_qty: crate::decimal::sum_spec(zero(), order.remaining),
                    orders: seq![order],
                },
            )
        })[a],
{
    let ov = side_view(slots0, ol);
    if a == i {
        if exists {
            let o = ov[i].orders;
            assert forall|j: int| 0 <= j < o.len() implies #[trigger] side_view(slots1, sl)[a].orders[j] == o[j] by {
                assert(sl[a].queue@[j] == ol[a].queue@[j]);
            }
            assert(side_view(slots1, sl)[a].orders =~= o.push(order));
        } else {
            assert(side_view(slots1, sl)[a].orders =~= seq![order]);
        }
    } else {
        let a0 = if !exists && a > i { a - 1 } else { a };
        assert(sl[a] == ol[a0]);
        let o = ov[a0].orders;
        assert forall|j: int| 0 <= j < o.len() implies #[trigger] side_view(slots1, sl)[a].orders[j] == o[j] by {
            assert(sl[a].queue@[j] == ol[a0].queue@[j]);
        }
        assert(side_view(slots1, sl)[a].orders =~= o);
    }
}

/// The side an order rests on, spelled out for the two cases of `insert_resting`.
proof fn lemma_insert_resting_shape(book: BookView, order: Order, i: int, exists: bool)
    requires
        i == seek(book.side(order.side), order.side, order.price),
        exists == (i < book.side(order.side).len() && book.side(order.side)[i].price.units()
            == order.price.units()),
    ensures
        book.insert_resting(order).side(order.side) == (if exists {
            book.side(order.side).update(
                i,
                LevelView {
                    price: book.side(order.side)[i].price,
                    total_qty: crate::decimal::sum_spec(book.side(order.side)[i].total_qty, order.remaining),
                    orders: book.side(order.side)[i].orders.push(order),
                },
            )
        } else {
            book.side(order.side).insert(
                i,
                LevelView {
                    price: order.price,
                    total_qty: crate::decimal::sum_spec(zero(), order.remaining),
                    orders: seq![order],
                },
            )
        }),
{
}

/// The model of both sides after an order joined level `i` of its side, from
/// the levels and slot contents before and after.
#[verifier::spinoff_prover]
proof fn lemma_insert_view_free(
    book0: BookView,
    slots0: Map<u64, OrderNode>,
    slots1: Map<u64, OrderNode>,
    ol: Seq<PriceLevel>,
    sl: Seq<PriceLevel>,
    other: Seq<PriceLevel>,
    i: int,
    key: u64,
    order: Order,
    exists: bool,
)
    requires
        book0.side(order.side) == side_view(slots0, ol),
        book0.side(opposite(order.side)) == side_view(slots0, other),
        forall|b: int, j: int|
            0 <= b < ol.len() && 0 <= j < ol[b].queue@.len() ==> slots1[#[trigger] ol[b].queue@[j]]
                == slots0[ol[b].queue@[j]],
        forall|b: int, j: int|
            0 <= b < other.len() && 0 <= j < other[b].queue@.len() ==> slots1[#[trigger] other[b].queue@[j]]
                == slots0[other[b].queue@[j]],
        slots1[key].order == order,
        i == seek(book0.side(order.side), order.side, order.price),
        exists == (i < book0.side(order.side).len() && book0.side(order.side)[i].price.units()
            == order.price.units()),
        exists ==> {
            &&& sl.len() == ol.len()
            &&& forall|k: int| 0 <= k < sl.len() && k != i ==> #[trigger] sl[k] == ol[k]
            &&& sl[i].price == ol[i].price
            &&& sl[i].total_qty == crate::decimal::sum_spec(ol[i].total_qty, order.remaining)
            &&& sl[i].queue@ == ol[i].queue@.push(key)
        },
        !exists ==> {
            &&& sl.len() == ol.len() + 1
            &&& forall|k: int| 0 <= k < i ==> #[trigger] sl[k] == ol[k]
            &&& forall|k: int| i < k < sl.len() ==> #[trigger] sl[k] == ol[k - 1]
            &&& sl[i].price == order.price
            &&& sl[i].total_qty == crate::decimal::sum_spec(zero(), order.remaining)
            &&& sl[i].queue@ == seq![key]
        },
    ensures
        side_view(slots1, sl) == book0.insert_resting(order).side(order.side),
        side_view(slots1, other) == book0.insert_resting(order).side(opposite(order.side)),
{
    let s0 = order.side;
    let nb = book0.insert_resting(order);
    lemma_seek(book0.side(s0), s0, order.price);
    lemma_side_view_frame(slots0, slots1, other);
    assert(nb.side(opposite(s0)) == book0.side(opposite(s0)));
    lemma_insert_resting_shape(book0, order, i, exists);
    assert forall|a: int| 0 <= a < sl.len() implies #[trigger] side_view(slots1, sl)[a] == nb.side(s0)[a] by {
        lemma_queue_push_view(slots0, slots1, ol, sl, i, key, order, exists, a);
    }
    assert(side_view(slots1, sl) =~= nb.side(s0));
}

impl OrderBook {
    /// Whether an order with this id rests in the book.
    fn has_order(&self, id: u64) -> (r: bool)
        requires
            self.wf(),
        ensures
            r == self@.contains_id(id),
    {
        let r = self.order_map.contains_key(&id);
        proof {
            if self@.contains_id(id) {
                let (s, i, j) = self@.locate(id);
                assert(self.node_ok(s, self.levels(s)[i].queue@[j]));
            }
        }
        r
    }

    /// Whether resting `order` would need no rounding of its level's total (see
    /// `insert_is_exact`).
    pub fn rests_exactly(&self, order: &Order) -> (r: bool)
        requires
            self.wf(),
            order.wf(),
        ensures
            r == insert_is_exact(self@, *order),
    {
        let i = self.seek_level(order.side, &order.price);
        proof {
            reveal(BookView::valid);
            if i < self@.side(order.side).len() {
                assert(self@.side(order.side)[i as int].price.wf());
                assert(self@.side(order.side)[i as int].total_qty.wf());
                assert(self@.side(order.side)[i as int].price == self.levels(order.side)[i as int].price);
                assert(self@.side(order.side)[i as int].total_qty == self.levels(order.side)[i as int].total_qty);
            }
        }
        let levels = match order.side {
            Side::Buy => &self.bids,
            Side::Sell => &self.asks,
        };
        if i < levels.len() && value_eq(&levels[i].price, &order.price) {
            levels[i].total_qty.sum_is_exact(&order.remaining)
        } else {
            true
        }
    }

    /// Insert a limit order into the book **without** attempting to match it.
    ///
    /// Use this to place a resting (passive) order directly. For incoming
    /// aggressive orders that should match first, use `match_order`. The order
    /// must be fresh (nothing filled yet), and adding it to the total of its
    /// price level must need no rounding.
    pub fn add_order(&mut self, order: Order) -> (r: Result<(), EngineError>)
        requires
            old(self).wf(),
            order.wf(),
            order_error(old(self)@, order) is None ==> order.remaining.units() > 0 && insert_is_exact(
                old(self)@,
                order,
            ),
            old(self)@.count() + 3 < u32::MAX,
        ensures
            final(self).wf(),
            match r {
                Ok(()) => order_error(old(self)@, order) is None && final(self)@ == old(self)@.insert_resting(order),
                Err(e) => order_error(old(self)@, order) == Some(e) && final(self)@ == old(self)@,
            },
    {
        let zero = Decimal::zero();
        if value_le(&order.price, &zero) {
            return Err(EngineError::InvalidPrice(order.price));
        }
        if value_le(&order.amount, &zero) {
            return Err(EngineError::InvalidAmount(order.amount));
        }
        if self.has_order(order.id) {
            return Err(EngineError::DuplicateOrderId(order.id));
        }
        self.insert_resting_order(order);
        Ok(())
    }
}

impl OrderBook {
    /// Drops the level at index `i` of `side` (left empty) and moves the cached best
    /// price to the next level when it was the best one.
    fn remove_level(&mut self, side: Side, i: usize)
        requires
            i < old(self).levels(side).len(),
        ensures
            final(self).levels(side) == old(self).levels(side).remove(i as int),
            final(self).levels(opposite(side)) == old(self).levels(opposite(side)),
            final(self).best_cache(opposite(side)) == old(self).best_cache(opposite(side)),
            final(self).best_cache(side) == (if i == 0 {
                if final(self).levels(side).len() > 0 {
                    Some(final(self).levels(side)[0].price)
                } else {
                    None
                }
            } else {
                old(self).best_cache(side)
            }),
            final(self).orders == old(self).orders,
            final(self).order_map == old(self).order_map,
    {
        match side {
            Side::Buy => {
                self.bids.remove(i);
                if i == 0 {
                    self.best_bid_price = if self.bids.len() > 0 {
                        Some(self.bids[0].price)
                    } else {
                        None
                    };
                }
            },
            Side::Sell => {
                self.asks.remove(i);
                if i == 0 {
                    self.best_ask_price = if self.asks.len() > 0 {
                        Some(self.asks[0].price)
                    } else {
                        None
                    };
                }
            },
        }
    }

    /// Takes the order at `(side, i, j)` out of the book and returns it.
    fn remove_order_at(&mut self, side: Side, i: usize, j: usize) -> (o: Order)
        requires
            old(self).wf(),
            old(self)@.valid_pos(side, i as int, j as int),
        ensures
            final(self).wf(),
            o == old(self)@.at(side, i as int, j as int),
            final(self)@ == old(self)@.remove_at(side, i as int, j as int),
    {
        let ghost old_self = *self;
        proof {
            lemma_remove_at_valid(old_self@, side, i as int, j as int);
            assert(old_self.node_ok(side, old_self.levels(side)[i as int].queue@[j as int]));
        }
        let key = match side {
            Side::Buy => self.bids[i].queue[j],
            Side::Sell => self.asks[i].queue[j],
        };
        let node = slots_remove(&mut self.orders, key).unwrap();
        let rem = node.order.remaining;
        let ghost lv0 = old_self.levels(side)[i as int];
        proof {
            assert(old_self@.side(side)[i as int].total_qty == lv0.total_qty);
            assert(old_self@.at(side, i as int, j as int) == node.order);
        }
        let emptied = match side {
            Side::Buy => {
                let total = self.bids[i].total_qty;
                let nt = if value_le(&rem, &total) {
                    exact_sub(&total, &rem)
                } else {
                    Decimal::zero()
                };
                self.bids[i].total_qty = nt;
                self.bids[i].queue.remove(j);
                self.bids[i].queue.len() == 0
            },
            Side::Sell => {
                let total = self.asks[i].total_qty;
                let nt = if value_le(&rem, &total) {
                    exact_sub(&total, &rem)
                } else {
                    Decimal::zero()
                };
                self.asks[i].total_qty = nt;
                self.asks[i].queue.remove(j);
                self.asks[i].queue.len() == 0
            },
        };
        let ghost mid = self.levels(side);
        if emptied {
            self.remove_level(side, i);
        }
        self.order_map.remove(&node.order.id);
        proof {
            self.lemma_after_remove(old_self, side, i as int, j as int, key, emptied, mid);
        }
        node.order
    }
}

impl OrderBook {
    /// The state right after the order at `(side, i, j)` left its queue (`mid`
    /// is the side's levels before an emptied level was dropped).
    closed spec fn remove_post(
        &self,
        old_self: OrderBook,
        side: Side,
        i: int,
        j: int,
        key: u64,
        emptied: bool,
        mid: Seq<PriceLevel>,
    ) -> bool {
        let ol = old_self.levels(side);
        let o = old_self@.at(side, i, j);
        let new_total = if ol[i].total_qty.units() >= o.remaining.units() {
            difference_spec(ol[i].total_qty, o.remaining)
        } else {
            zero()
        };
        &&& old_self.wf()
        &&& old_self@.valid_pos(side, i, j)
        &&& key == ol[i].queue@[j]
        &&& self.slots() == old_self.slots().remove(key)
        &&& self.order_map@ == old_self.order_map@.remove(o.id)
        &&& self.levels(opposite(side)) == old_self.levels(opposite(side))
        &&& self.best_cache(opposite(side)) == old_self.best_cache(opposite(side))
        &&& mid.len() == ol.len()
        &&& forall|k: int| 0 <= k < mid.len() && k != i ==> #[trigger] mid[k] == ol[k]
        &&& mid[i].price == ol[i].price
        &&& mid[i].total_qty == new_total
        &&& mid[i].queue@ == ol[i].queue@.remove(j)
        &&& emptied == (mid[i].queue@.len() == 0)
        &&& emptied ==> {
            &&& self.levels(side) == mid.remove(i)
            &&& self.best_cache(side) == (if i == 0 {
                if self.levels(side).len() > 0 {
                    Some(self.levels(side)[0].price)
                } else {
                    None
                }
            } else {
                old_self.best_cache(side)
            })
        }
        &&& !emptied ==> self.levels(side) == mid && self.best_cache(side) == old_self.best_cache(side)
    }

    proof fn lemma_remove_frame(
        &self,
        old_self: OrderBook,
        side: Side,
        i: int,
        j: int,
        key: u64,
        emptied: bool,
        mid: Seq<PriceLevel>,
    )
        requires
            self.remove_post(old_self, side, i, j, key, emptied, mid),
        ensures
            forall|s: Side, a: int, b: int|
                0 <= a < old_self.levels(s).len() && 0 <= b < old_self.levels(s)[a].queue@.len() && !(s == side
                    && a == i && b == j) ==> {
                    &&& #[trigger] old_self.levels(s)[a].queue@[b] != key
                    &&& self.slots()[old_self.levels(s)[a].queue@[b]] == old_self.slots()[old_self.levels(s)[a].queue@[b]]
                    &&& old_self.node_ok(s, old_self.levels(s)[a].queue@[b])
                    &&& old_self@.at(s, a, b).id != old_self@.at(side, i, j).id
                },
    {
        reveal(BookView::valid);
        assert forall|s: Side, a: int, b: int|
            0 <= a < old_self.levels(s).len() && 0 <= b < old_self.levels(s)[a].queue@.len() && !(s == side
                && a == i && b == j) implies {
                &&& #[trigger] old_self.levels(s)[a].queue@[b] != key
                &&& self.slots()[old_self.levels(s)[a].queue@[b]] == old_self.slots()[old_self.levels(s)[a].queue@[b]]
                &&& old_self.node_ok(s, old_self.levels(s)[a].queue@[b])
                &&& old_self@.at(s, a, b).id != old_self@.at(side, i, j).id
            } by {
            let k = old_self.levels(s)[a].queue@[b];
            assert(old_self.node_ok(s, k));
            assert(old_self.node_ok(side, key));
            assert(old_self@.valid_pos(s, a, b));
            assert(old_self@.at(s, a, b) == old_self.slots()[k].order);
            assert(old_self@.at(side, i, j) == old_self.slots()[key].order);
        }
    }

    #[verifier::spinoff_prover]
    proof fn lemma_remove_post_facts(
        &self,
        old_self: OrderBook,
        side: Side,
        i: int,
        j: int,
        key: u64,
        emptied: bool,
        mid: Seq<PriceLevel>,
    )
        requires
            self.remove_post(old_self, side, i, j, key, emptied, mid),
        ensures
            old_self@.valid_pos(side, i, j),
            mid.len() == old_self.levels(side).len(),
            forall|k: int| 0 <= k < mid.len() && k != i ==> #[trigger] mid[k] == old_self.levels(side)[k],
            mid[i].price == old_self.levels(side)[i].price,
            mid[i].total_qty == (if old_self.levels(side)[i].total_qty.units() >= old_self@.at(side, i, j).remaining.units() {
                difference_spec(old_self.levels(side)[i].total_qty, old_self@.at(side, i, j).remaining)
            } else {
                zero()
            }),
            mid[i].queue@ == old_self.levels(side)[i].queue@.remove(j),
            emptied == (mid[i].queue@.len() == 0),
            emptied ==> self.levels(side) == mid.remove(i),
            !emptied ==> self.levels(side) == mid,
            self.levels(opposite(side)) == old_self.levels(opposite(side)),
            forall|a: int, b: int|
                0 <= a < old_self.levels(side).len() && 0 <= b < old_self.levels(side)[a].queue@.len() && !(a == i
                    && b == j) ==> self.slots()[#[trigger] old_self.levels(side)[a].queue@[b]] == old_self.slots()[old_self.levels(side)[a].queue@[b]],
            forall|a: int, b: int|
                0 <= a < old_self.levels(opposite(side)).len() && 0 <= b < old_self.levels(opposite(side))[a].queue@.len()
                    ==> self.slots()[#[trigger] old_self.levels(opposite(side))[a].queue@[b]] == old_self.slots()[old_self.levels(opposite(side))[a].queue@[b]],
            old_self@.side(side) == side_view(old_self.slots(), old_self.levels(side)),
            old_self@.side(opposite(side)) == side_view(old_self.slots(), old_self.levels(opposite(side))),
    {
        let opp = opposite(side);
        self.lemma_remove_frame(old_self, side, i, j, key, emptied, mid);
        let ol = old_self.levels(side);
        assert forall|a: int, b: int|
            0 <= a < ol.len() && 0 <= b < ol[a].queue@.len() && !(a == i && b == j) implies self.slots()[#[trigger] ol[a].queue@[b]]
                == old_self.slots()[ol[a].queue@[b]] by {}
        assert forall|a: int, b: int|
            0 <= a < old_self.levels(opp).len() && 0 <= b < old_self.levels(opp)[a].queue@.len() implies self.slots()[#[trigger] old_self.levels(opp)[a].queue@[b]]
                == old_self.slots()[old_self.levels(opp)[a].queue@[b]] by {
            assert(opp != side);
        }
    }

    #[verifier::spinoff_prover]
    proof fn lemma_remove_view_sides(
        &self,
        old_self: OrderBook,
        side: Side,
        i: int,
        j: int,
        key: u64,
        emptied: bool,
        mid: Seq<PriceLevel>,
    )
        requires
            self.remove_post(old_self, side, i, j, key, emptied, mid),
        ensures
            self@.side(side) == old_self@.remove_at(side, i, j).side(side),
            self@.side(opposite(side)) == old_self@.remove_at(side, i, j).side(opposite(side)),
    {
        self.lemma_remove_post_facts(old_self, side, i, j, key, emptied, mid);
        lemma_remove_view_free(old_self@, old_self.slots(), self.slots(), old_self.levels(side), mid, self.levels(side),
            old_self.levels(opposite(side)), side, i, j, emptied);
        assert(self@.side(side) == side_view(self.slots(), self.levels(side)));
        assert(self@.side(opposite(side)) == side_view(self.slots(), self.levels(opposite(side))));
    }

    proof fn lemma_remove_view(
        &self,
        old_self: OrderBook,
        side: Side,
        i: int,
        j: int,
        key: u64,
        emptied: bool,
        mid: Seq<PriceLevel>,
    )
        requires
            self.remove_post(old_self, side, i, j, key, emptied, mid),
        ensures
            self@ == old_self@.remove_at(side, i, j),
    {
        self.lemma_remove_view_sides(old_self, side, i, j, key, emptied, mid);
        let nb = old_self@.remove_at(side, i, j);
        match side {
            Side::Buy => {
                assert(self@.bids == nb.bids);
                assert(self@.asks == nb.asks);
            },
            Side::Sell => {
                assert(self@.bids == nb.bids);
                assert(self@.asks == nb.asks);
            },
        }
    }

    #[verifier::spinoff_prover]
    proof fn lemma_remove_nodes(
        &self,
        old_self: OrderBook,
        side: Side,
        i: int,
        j: int,
        key: u64,
        emptied: bool,
        mid: Seq<PriceLevel>,
    )
        requires
            self.remove_post(old_self, side, i, j, key, emptied, mid),
        ensures
            forall|s: Side, a: int, b: int|
                0 <= a < self.levels(s).len() && 0 <= b < self.levels(s)[a].queue@.len() ==> #[trigger] self.node_ok(
                    s,
                    self.levels(s)[a].queue@[b],
                ),
    {
        self.lemma_remove_frame(old_self, side, i, j, key, emptied, mid);
        let rid = old_self@.at(side, i, j).id;
        assert forall|s: Side, a: int, b: int|
            0 <= a < self.levels(s).len() && 0 <= b < self.levels(s)[a].queue@.len() implies #[trigger] self.node_ok(
                s,
                self.levels(s)[a].queue@[b],
            ) by {
            let (a0, b0) = self.lemma_remove_old_position(old_self, side, i, j, key, emptied, mid, s, a, b);
            let k = old_self.levels(s)[a0].queue@[b0];
            assert(old_self@.at(s, a0, b0) == old_self.slots()[k].order);
            lemma_node_ok_kept(*self, old_self, s, k, rid);
        }
    }

    proof fn lemma_remove_old_position(
        &self,
        old_self: OrderBook,
        side: Side,
        i: int,
        j: int,
        key: u64,
        emptied: bool,
        mid: Seq<PriceLevel>,
        s: Side,
        a: int,
        b: int,
    ) -> (p: (int, int))
        requires
            self.remove_post(old_self, side, i, j, key, emptied, mid),
            0 <= a < self.levels(s).len(),
            0 <= b < self.levels(s)[a].queue@.len(),
        ensures
            0 <= p.0 < old_self.levels(s).len(),
            0 <= p.1 < old_self.levels(s)[p.0].queue@.len(),
            !(s == side && p.0 == i && p.1 == j),
            self.levels(s)[a].queue@[b] == old_self.levels(s)[p.0].queue@[p.1],
    {
        let a0 = if s == side && emptied && a >= i { a + 1 } else { a };
        let b0 = if s == side && a0 == i && b >= j { b + 1 } else { b };
        if s != side {
            assert(s == opposite(side));
        } else if emptied {
            assert(self.levels(s)[a] == mid[a0]);
        }
        (a0, b0)
    }

    proof fn lemma_after_remove(
        &self,
        old_self: OrderBook,
        side: Side,
        i: int,
        j: int,
        key: u64,
        emptied: bool,
        mid: Seq<PriceLevel>,
    )
        requires
            self.remove_post(old_self, side, i, j, key, emptied, mid),
        ensures
            self.wf(),
            self@ == old_self@.remove_at(side, i, j),
    {
        let book0 = old_self@;
        let opp = opposite(side);
        lemma_remove_at_valid(book0, side, i, j);
        lemma_remove_at_count(book0, side, i, j);
        self.lemma_remove_view(old_self, side, i, j, key, emptied, mid);
        self.lemma_remove_nodes(old_self, side, i, j, key, emptied, mid);
        let o = book0.at(side, i, j);
        assert(old_self.node_ok(side, key));
        assert(o == old_self.slots()[key].order);
        assert(old_self.order_map@.contains_key(o.id));
        assert forall|id: u64| #[trigger] self.order_map@.contains_key(id) implies self@.contains_id(id) by {
            lemma_remove_at_ids(book0, side, i, j, id);
        }
        assert(self.best_cache(side) == self@.best(side)) by {
            assert(old_self.best_cache(side) == book0.best(side));
        }
        assert(self.best_cache(opp) == self@.best(opp)) by {
            assert(old_self.best_cache(opp) == book0.best(opp));
        }
        assert forall|s: Side| #[trigger] self.best_cache(s) == self@.best(s) by {
            if s != side {
                assert(s == opp);
            }
        }
    }
}

/// The model of both sides after the order at `(side, i, j)` left its queue.
#[verifier::spinoff_prover]
proof fn lemma_remove_view_free(
    book0: BookView,
    slots0: Map<u64, OrderNode>,
    slots1: Map<u64, OrderNode>,
    ol: Seq<PriceLevel>,
    mid: Seq<PriceLevel>,
    sl: Seq<PriceLevel>,
    other: Seq<PriceLevel>,
    side: Side,
    i: int,
    j: int,
    emptied: bool,
)
    requires
        book0.side(side) == side_view(slots0, ol),
        book0.side(opposite(side)) == side_view(slots0, other),
        book0.valid_pos(side, i, j),
        forall|b: int, k: int|
            0 <= b < ol.len() && 0 <= k < ol[b].queue@.len() && !(b == i && k == j) ==> slots1[#[trigger] ol[b].queue@[k]]
                == slots0[ol[b].queue@[k]],
        forall|b: int, k: int|
            0 <= b < other.len() && 0 <= k < other[b].queue@.len() ==> slots1[#[trigger] other[b].queue@[k]]
                == slots0[other[b].queue@[k]],
        mid.len() == ol.len(),
        forall|k: int| 0 <= k < mid.len() && k != i ==> #[trigger] mid[k] == ol[k],
        mid[i].price == ol[i].price,
        mid[i].total_qty == (if ol[i].total_qty.units() >= book0.at(side, i, j).remaining.units() {
            difference_spec(ol[i].total_qty, book0.at(side, i, j).remaining)
        } else {
            zero()
        }),
        mid[i].queue@ == ol[i].queue@.remove(j),
        emptied == (mid[i].queue@.len() == 0),
        emptied ==> sl == mid.remove(i),
        !emptied ==> sl == mid,
    ensures
        side_view(slots1, sl) == book0.remove_at(side, i, j).side(side),
        side_view(slots1, other) == book0.remove_at(side, i, j).side(opposite(side)),
{
    let nb = book0.remove_at(side, i, j);
    lemma_side_view_frame(slots0, slots1, other);
    assert(nb.side(opposite(side)) == book0.side(opposite(side)));
    let ov = side_view(slots0, ol);
    let mv = side_view(slots1, mid);
    assert forall|a: int| 0 <= a < mid.len() && a != i implies #[trigger] mv[a] == ov[a] by {
        assert(mid[a] == ol[a]);
        let o = ov[a].orders;
        assert forall|k: int| 0 <= k < o.len() implies #[trigger] mv[a].orders[k] == o[k] by {
            assert(mid[a].queue@[k] == ol[a].queue@[k]);
        }
        assert(mv[a].orders =~= o);
    }
    let o = ov[i].orders;
    assert forall|k: int| 0 <= k < o.len() - 1 implies #[trigger] mv[i].orders[k] == o.remove(j)[k] by {
        let k0 = if k >= j { k + 1 } else { k };
        assert(mid[i].queue@[k] == ol[i].queue@[k0]);
    }
    assert(mv[i].orders =~= o.remove(j));
    if emptied {
        assert(nb.side(side) == ov.remove(i));
        assert(side_view(slots1, sl) =~= nb.side(side)) by {
            assert forall|a: int| 0 <= a < sl.len() implies #[trigger] side_view(slots1, sl)[a] == nb.side(side)[a] by {
                let a0 = if a >= i { a + 1 } else { a };
                assert(sl[a] == mid[a0]);
                assert(side_view(slots1, sl)[a] == mv[a0]);
            }
        }
    } else {
        assert(side_view(slots1, sl) =~= nb.side(side)) by {
            assert forall|a: int| 0 <= a < sl.len() implies #[trigger] side_view(slots1, sl)[a] == nb.side(side)[a] by {
                assert(side_view(slots1, sl)[a] == mv[a]);
            }
        }
    }
}

/// A stored order that an update left in place, under an id that stayed in the
/// index, is still stored and indexed.
proof fn lemma_node_ok_kept(new: OrderBook, old: OrderBook, s: Side, k: u64, rid: u64)
    requires
        old.node_ok(s, k),
        new.slots().contains_key(k),
        new.slots()[k] == old.slots()[k],
        old.slots()[k].order.id != rid,
        new.order_map@ == old.order_map@.remove(rid),
    ensures
        new.node_ok(s, k),
{
}

impl OrderBook {
    /// Remove a resting order from the book by its ID.
    ///
    /// The order is found through the id index; it leaves its level's queue, the
    /// level's total drops by what the order had left, and an emptied level is
    /// dropped (so the best prices stay accurate). Unknown ids are refused.
    pub fn cancel_order(&mut self, order_id: u64) -> (r: Result<Order, EngineError>)
        requires
            old(self).wf(),
        ensures
            final(self).wf(),
            match r {
                Ok(o) => {
                    let (s, i, j) = old(self)@.locate(order_id);
                    &&& old(self)@.contains_id(order_id)
                    &&& o == old(self)@.at(s, i, j)
                    &&& final(self)@ == old(self)@.remove_at(s, i, j)
                },
                Err(e) => !old(self)@.contains_id(order_id) && e == EngineError::OrderNotFound(order_id)
                    && final(self)@ == old(self)@,
            },
    {
        let key = match self.order_map.get(&order_id) {
            Some(k) => *k,
            None => {
                proof {
                    if self@.contains_id(order_id) {
                        let (s, i, j) = self@.locate(order_id);
                        assert(self.node_ok(s, self.levels(s)[i].queue@[j]));
                    }
                }
                return Err(EngineError::OrderNotFound(order_id));
            },
        };
        let ghost pos = self@.locate(order_id);
        proof {
            assert(self@.contains_id(order_id));
            let (s, i, j) = pos;
            assert(self.node_ok(s, self.levels(s)[i].queue@[j]));
            assert(self@.at(s, i, j) == self.slots()[self.levels(s)[i].queue@[j]].order);
            assert(self.levels(s)[i].queue@[j] == key);
            reveal(BookView::valid);
            assert(self@.at(s, i, j).price.units() == self@.side(s)[i].price.units());
            assert(self@.at(s, i, j).wf());
        }
        let node = slots_get(&self.orders, key).unwrap();
        let side = node.side;
        let price = node.price;
        let i = self.seek_level(side, &price);
        proof {
            lemma_seek_level(self@, side, pos.1, price);
        }
        let queue = match side {
            Side::Buy => &self.bids[i].queue,
            Side::Sell => &self.asks[i].queue,
        };
        let mut j: usize = 0;
        while queue[j] != key
            invariant
                self.wf(),
                pos == self@.locate(order_id),
                side == pos.0,
                i == pos.1,
                i < self.levels(side).len(),
                queue@ == self.levels(side)[i as int].queue@,
                j <= pos.2,
                queue@[pos.2] == key,
                0 <= pos.2 < queue@.len(),
            decreases pos.2 - j,
        {
            assert(j < pos.2);
            assert(pos.2 < queue.len());
            j = j + 1;
        }
        proof {
            assert(self.node_ok(side, key));
            assert(self@.valid_pos(side, i as int, j as int));
            assert(self@.at(side, i as int, j as int) == self.slots()[key].order);
            lemma_locate(self@, order_id, side, i as int, j as int);
        }
        let o = self.remove_order_at(side, i, j);
        Ok(o)
    }
}

/// A level with a new total and, when given, a new first order.
spec fn front_level(lv: LevelView, total: Decimal, head: Option<Order>) -> LevelView {
    LevelView {
        price: lv.price,
        total_qty: total,
        orders: match head {
            Some(h) => lv.orders.update(0, h),
            None => lv.orders,
        },
    }
}

/// The book with the best level of `side` rewritten by `front_level`.
spec fn rewritten(book: BookView, side: Side, total: Decimal, head: Option<Order>) -> BookView {
    book.with_side(side, book.side(side).update(0, front_level(book.side(side)[0], total, head)))
}

impl OrderBook {
    /// The key of the first order of the best level of `side` is queued nowhere else.
    proof fn lemma_front_key_unique(&self, side: Side)
        requires
            self.wf(),
            self@.side(side).len() > 0,
        ensures
            self.levels(side)[0].queue@.len() > 0,
            forall|s: Side, a: int, j: int|
                0 <= a < self.levels(s).len() && 0 <= j < self.levels(s)[a].queue@.len() && !(s == side && a == 0
                    && j == 0) ==> #[trigger] self.levels(s)[a].queue@[j] != self.levels(side)[0].queue@[0],
    {
        reveal(BookView::valid);
        assert(self@.valid_pos(side, 0, 0));
        let key = self.levels(side)[0].queue@[0];
        assert(self@.at(side, 0, 0) == self.slots()[key].order);
        assert forall|s: Side, a: int, j: int|
            0 <= a < self.levels(s).len() && 0 <= j < self.levels(s)[a].queue@.len() && !(s == side && a == 0
                && j == 0) implies #[trigger] self.levels(s)[a].queue@[j] != key by {
            if self.levels(s)[a].queue@[j] == key {
                assert(self@.valid_pos(s, a, j));
                assert(self@.at(s, a, j) == self.slots()[key].order);
            }
        }
    }

    /// The state after the stored first order (when given) and the total of the
    /// best level of `side` were overwritten.
    #[verifier::spinoff_prover]
    proof fn lemma_after_rewrite(&self, old_self: OrderBook, side: Side, total: Decimal, head: Option<Order>, key: u64)
        requires
            old_self.wf(),
            old_self@.side(side).len() > 0,
            key == old_self.levels(side)[0].queue@[0],
            head matches Some(h) ==> h.id == old_self@.at(side, 0, 0).id && h.side == side && h.price
                == old_self@.at(side, 0, 0).price,
            rewritten(old_self@, side, total, head).valid(),
            self.slots() == (match head {
                Some(h) => old_self.slots().insert(key, OrderNode { order: h, side, price: h.price }),
                None => old_self.slots(),
            }),
            self.levels(side).len() == old_self.levels(side).len(),
            self.levels(side)[0].price == old_self.levels(side)[0].price,
            self.levels(side)[0].queue@ == old_self.levels(side)[0].queue@,
            self.levels(side)[0].total_qty == total,
            forall|a: int| 0 < a < self.levels(side).len() ==> #[trigger] self.levels(side)[a] == old_self.levels(side)[a],
            self.levels(opposite(side)) == old_self.levels(opposite(side)),
            self.order_map@ == old_self.order_map@,
            forall|s: Side| #[trigger] self.best_cache(s) == old_self.best_cache(s),
        ensures
            self.wf(),
            self@ == rewritten(old_self@, side, total, head),
    {
        old_self.lemma_front_key_unique(side);
        let opp = opposite(side);
        let nb = rewritten(old_self@, side, total, head);
        let ov = old_self@.side(side);
        let fl = front_level(ov[0], total, head);
        assert(old_self.node_ok(side, key));
        assert(self.slots().dom() =~= old_self.slots().dom());
        assert forall|k: u64| k != key implies #[trigger] self.slots()[k] == old_self.slots()[k] by {}
        assert forall|a: int, j: int|
            0 <= a < old_self.levels(opp).len() && 0 <= j < old_self.levels(opp)[a].queue@.len() implies self.slots()[#[trigger] old_self.levels(opp)[a].queue@[j]].order
                == old_self.slots()[old_self.levels(opp)[a].queue@[j]].order by {
            assert(old_self.levels(opp)[a].queue@[j] != key);
        }
        lemma_side_view_frame(old_self.slots(), self.slots(), old_self.levels(opp));
        assert(old_self@.side(opp) == side_view(old_self.slots(), old_self.levels(opp)));
        assert(self@.side(opp) == side_view(self.slots(), self.levels(opp)));
        assert(ov == side_view(old_self.slots(), old_self.levels(side)));
        let sv = side_view(self.slots(), self.levels(side));
        assert(self@.side(side) == sv);
        assert forall|a: int| 0 <= a < sv.len() implies #[trigger] sv[a] == nb.side(side)[a] by {
            if a == 0 {
                assert forall|j: int| 0 <= j < sv[0].orders.len() implies #[trigger] sv[0].orders[j] == fl.orders[j] by {
                    if j > 0 {
                        assert(old_self.levels(side)[0].queue@[j] != key);
                    }
                }
                assert(sv[0].orders =~= fl.orders);
            } else {
                assert forall|j: int| 0 <= j < sv[a].orders.len() implies #[trigger] sv[a].orders[j] == ov[a].orders[j] by {
                    assert(old_self.levels(side)[a].queue@[j] != key);
                }
                assert(sv[a].orders =~= ov[a].orders);
            }
        }
        assert(sv =~= nb.side(side));
        assert(nb.side(opp) == old_self@.side(opp));
        match side {
            Side::Buy => {
                assert(self@.bids == nb.bids);
                assert(self@.asks == nb.asks);
            },
            Side::Sell => {
                assert(self@.bids == nb.bids);
                assert(self@.asks == nb.asks);
            },
        }
        self.lemma_rewrite_wf(old_self, side, total, head, key);
    }

    #[verifier::spinoff_prover]
    proof fn lemma_rewrite_wf(&self, old_self: OrderBook, side: Side, total: Decimal, head: Option<Order>, key: u64)
        requires
            old_self.wf(),
            old_self@.side(side).len() > 0,
            key == old_self.levels(side)[0].queue@[0],
            head matches Some(h) ==> h.id == old_self@.at(side, 0, 0).id && h.side == side && h.price
                == old_self@.at(side, 0, 0).price,
            rewritten(old_self@, side, total, head).valid(),
            self@ == rewritten(old_self@, side, total, head),
            self.slots() == (match head {
                Some(h) => old_self.slots().insert(key, OrderNode { order: h, side, price: h.price }),
                None => old_self.slots(),
            }),
            self.levels(side).len() == old_self.levels(side).len(),
            self.levels(side)[0].queue@ == old_self.levels(side)[0].queue@,
            forall|a: int| 0 < a < self.levels(side).len() ==> #[trigger] self.levels(side)[a] == old_self.levels(side)[a],
            self.levels(opposite(side)) == old_self.levels(opposite(side)),
            self.order_map@ == old_self.order_map@,
            forall|s: Side| #[trigger] self.best_cache(s) == old_self.best_cache(s),
        ensures
            self.wf(),
    {
        old_self.lemma_front_key_unique(side);
        reveal(BookView::valid);
        let opp = opposite(side);
        let ob = old_self@;
        let nb = self@;
        let ov = ob.side(side);
        let fl = front_level(ov[0], total, head);
        assert(old_self.node_ok(side, key));
        assert(self.slots().dom() =~= old_self.slots().dom());
        assert(ob.valid_pos(side, 0, 0));
        assert(ob.at(side, 0, 0) == old_self.slots()[key].order);
        assert forall|s: Side, a: int, j: int|
            0 <= a < self.levels(s).len() && 0 <= j < self.levels(s)[a].queue@.len() implies #[trigger] self.node_ok(
                s,
                self.levels(s)[a].queue@[j],
            ) by {
            if s != side {
                assert(s == opp);
            }
            assert(self.levels(s)[a].queue@[j] == old_self.levels(s)[a].queue@[j]);
            assert(old_self.node_ok(s, old_self.levels(s)[a].queue@[j]));
        }
        assert forall|id: u64| #[trigger] self.order_map@.contains_key(id) implies nb.contains_id(id) by {
            assert(ob.contains_id(id));
            let (s, a, j) = ob.locate(id);
            assert(ob.valid_pos(s, a, j) && ob.at(s, a, j).id == id);
            if s != side {
                assert(s == opp);
            }
            assert(nb.valid_pos(s, a, j) && nb.at(s, a, j).id == id);
        }
        let g = |l: LevelView| l.orders.len() as int;
        crate::book_model::lemma_sum_levels_update(ov, 0, fl, g);
        assert(nb.side(side) == ov.update(0, fl));
        assert(nb.side(opp) == ob.side(opp));
        assert(nb.count() == ob.count()) by {
            match side {
                Side::Buy => {},
                Side::Sell => {},
            }
        }
        assert forall|s: Side| #[trigger] self.best_cache(s) == nb.best(s) by {
            assert(old_self.best_cache(s) == ob.best(s));
            if s != side {
                assert(s == opp);
            }
        }
    }
}

impl OrderBook {
    /// Overwrites the total of the best level of `side` and, when given, its first
    /// order (same id, side and price), leaving everything else as it is.
    fn rewrite_front(&mut self, side: Side, total: Decimal, head: Option<Order>)
        requires
            old(self).wf(),
            old(self)@.side(side).len() > 0,
            head matches Some(h) ==> h.id == old(self)@.at(side, 0, 0).id && h.side == side && h.price
                == old(self)@.at(side, 0, 0).price,
            rewritten(old(self)@, side, total, head).valid(),
        ensures
            final(self).wf(),
            final(self)@ == rewritten(old(self)@, side, total, head),
    {
        let ghost old_self = *self;
        let ghost head0 = head;
        proof {
            old_self.lemma_front_key_unique(side);
        }
        let key = match side {
            Side::Buy => self.bids[0].queue[0],
            Side::Sell => self.asks[0].queue[0],
        };
        match head {
            Some(h) => {
                let p = h.price;
                proof {
                    assert(old_self.node_ok(side, key));
                }
                slots_set(&mut self.orders, key, OrderNode { order: h, side, price: p });
            },
            None => {},
        }
        match side {
            Side::Buy => {
                self.bids[0].total_qty = total;
            },
            Side::Sell => {
                self.asks[0].total_qty = total;
            },
        }
        proof {
            assert(forall|a: int|
                0 < a < self.levels(side).len() ==> #[trigger] self.levels(side)[a] == old_self.levels(side)[a]);
            self.lemma_after_rewrite(old_self, side, total, head0, key);
        }
    }

    /// The best level of `side`: its price, its total, the slot key of its first
    /// order and the length of its queue; `None` when the side is empty.
    fn front(&self, side: Side) -> (r: Option<(Decimal, Decimal, u64, usize)>)
        requires
            self.wf(),
        ensures
            (r is None) == (self@.side(side).len() == 0),
            r matches Some(f) ==> {
                &&& f.0 == self@.side(side)[0].price
                &&& f.1 == self@.side(side)[0].total_qty
                &&& f.3 == self@.side(side)[0].orders.len()
                &&& self.slots().contains_key(f.2)
                &&& self.slots()[f.2].order == self@.at(side, 0, 0)
            },
    {
        let levels = match side {
            Side::Buy => &self.bids,
            Side::Sell => &self.asks,
        };
        if levels.len() == 0 {
            return None;
        }
        proof {
            self.lemma_front_key_unique(side);
            assert(self.node_ok(side, self.levels(side)[0].queue@[0]));
        }
        Some((levels[0].price, levels[0].total_qty, levels[0].queue[0], levels[0].queue.len()))
    }
}

impl OrderBook {
    /// One matching step of `taker` against the best opposite level (see
    /// `fill_step`): returns whether a trade happened, and appends it to `trades`.
    fn fill_one(&mut self, taker: &mut Order, trades: &mut Vec<Trade>) -> (stepped: bool)
        requires
            old(self).wf(),
            old(taker).wf(),
            step_is_exact(old(self)@, *old(taker)),
        ensures
            final(self).wf(),
            stepped == fill_step(old(self)@, *old(taker)) is Some,
            stepped ==> final(self)@ == fill_step(old(self)@, *old(taker)).unwrap().0,
            stepped ==> *final(taker) == fill_step(old(self)@, *old(taker)).unwrap().1,
            stepped ==> final(trades)@ == old(trades)@.push(fill_step(old(self)@, *old(taker)).unwrap().2),
            !stepped ==> final(self)@ == old(self)@ && *final(taker) == *old(taker) && final(trades)@ == old(
                trades,
            )@,
    {
        let ghost book = self@;
        let ghost t0 = *taker;
        let opp = match taker.side {
            Side::Buy => Side::Sell,
            Side::Sell => Side::Buy,
        };
        let (lprice, ltotal, key, qlen) = match self.front(opp) {
            Some(f) => f,
            None => {
                return false;
            },
        };
        proof {
            reveal(BookView::valid);
            assert(book.valid_pos(opp, 0, 0));
            assert(book.side(opp)[0].price.wf());
        }
        let crossing = match taker.side {
            Side::Buy => value_le(&lprice, &taker.price),
            Side::Sell => value_le(&taker.price, &lprice),
        };
        if !crossing {
            return false;
        }
        let node = slots_get(&self.orders, key).unwrap();
        if node.order.user_id == taker.user_id {
            return false;
        }
        let maker_rem = node.order.remaining;
        let fill = if value_le(&taker.remaining, &maker_rem) {
            taker.remaining
        } else {
            maker_rem
        };
        proof {
            assert(fill_step(book, t0) is Some);
            lemma_fill_step_shape(book, t0);
            lemma_fill_step_facts(book, t0);
        }
        let maker_left = exact_sub(&maker_rem, &fill);
        let taker_left = exact_sub(&taker.remaining, &fill);
        let total_left = exact_sub(&ltotal, &fill);
        let trade = Trade {
            maker_order_id: node.order.id,
            taker_order_id: taker.id,
            symbol: taker.symbol.clone(),
            price: lprice,
            amount: fill,
        };
        let ghost st = fill_step(book, t0).unwrap();
        proof {
            crate::decimal::lemma_zero_units(maker_left);
        }
        if maker_left.mantissa <= 0 {
            let _ = self.remove_order_at(opp, 0, 0);
            if qlen > 1 {
                proof {
                    let b1 = book.remove_at(opp, 0, 0);
                    let lv = book.side(opp)[0];
                    let nl = LevelView { price: lv.price, total_qty: total_left, orders: lv.orders.remove(0) };
                    assert(b1.side(opp) == book.side(opp).update(0, b1.side(opp)[0]));
                    assert(b1.side(opp).update(0, front_level(b1.side(opp)[0], total_left, None)) =~= book.side(
                        opp,
                    ).update(0, nl));
                    assert(rewritten(b1, opp, total_left, None) == st.0);
                }
                self.rewrite_front(opp, total_left, None);
            }
        } else {
            let mut maker = node.order.clone();
            maker.remaining = maker_left;
            proof {
                assert(rewritten(book, opp, total_left, Some(maker)) == st.0);
            }
            self.rewrite_front(opp, total_left, Some(maker));
        }
        taker.remaining = taker_left;
        trades.push(trade);
        true
    }
}

impl OrderBook {
    /// Matches `taker` against the opposite side until it is filled or no trade is
    /// possible (see `match_all`), appending the trades to `trades`.
    fn fill(&mut self, taker: &mut Order, trades: &mut Vec<Trade>)
        requires
            old(self).wf(),
            old(taker).wf(),
            match_is_exact(old(self)@, *old(taker)),
        ensures
            final(self).wf(),
            final(self)@ == match_all(old(self)@, *old(taker)).0,
            *final(taker) == match_all(old(self)@, *old(taker)).1,
            final(trades)@ == old(trades)@ + match_all(old(self)@, *old(taker)).2,
    {
        let ghost b0 = self@;
        let ghost t0 = *taker;
        let ghost tr0 = trades@;
        loop
            invariant
                self.wf(),
                taker.wf(),
                match_is_exact(self@, *taker),
                match_all(self@, *taker).0 == match_all(b0, t0).0,
                match_all(self@, *taker).1 == match_all(b0, t0).1,
                trades@ + match_all(self@, *taker).2 == tr0 + match_all(b0, t0).2,
            ensures
                self.wf(),
                self@ == match_all(b0, t0).0,
                *taker == match_all(b0, t0).1,
                trades@ == tr0 + match_all(b0, t0).2,
            decreases match_measure(self@, *taker),
        {
            if taker.is_filled() {
                proof {
                    assert(trades@ + match_all(self@, *taker).2 =~= trades@);
                }
                break;
            }
            let ghost bk = self@;
            let ghost tk = *taker;
            let ghost trk = trades@;
            let stepped = self.fill_one(taker, trades);
            if !stepped {
                proof {
                    assert(trades@ + match_all(self@, *taker).2 =~= trades@);
                }
                break;
            }
            proof {
                lemma_fill_step_decreases(bk, tk);
                lemma_fill_step_facts(bk, tk);
                let st = fill_step(bk, tk).unwrap();
                let rest = match_all(st.0, st.1);
                assert(match_all(bk, tk) == (rest.0, rest.1, seq![st.2] + rest.2));
                assert(trk.push(st.2) + rest.2 =~= trk + (seq![st.2] + rest.2));
            }
        }
    }

    /// Match an incoming taker order against resting orders in the book.
    ///
    /// Buy takers consume asks from the lowest price up, sell takers consume bids
    /// from the highest price down, each level in arrival order, as long as the
    /// level's price crosses the taker's limit and the resting order belongs to
    /// another user (no self-trade). Each fill is the smaller of the two remaining
    /// quantities and trades at the resting order's price. Whatever the taker has
    /// left afterwards rests in the book. Returns the trades in the order they
    /// happened.
    pub fn match_order(&mut self, taker: Order) -> (r: Result<Vec<Trade>, EngineError>)
        requires
            old(self).wf(),
            taker.wf(),
            order_error(old(self)@, taker) is None ==> match_order_is_exact(old(self)@, taker),
            old(self)@.count() + 3 < u32::MAX,
        ensures
            final(self).wf(),
            match r {
                Ok(trades) => order_error(old(self)@, taker) is None && trades@ == match_run(old(self)@, taker).2
                    && final(self)@ == match_outcome(old(self)@, taker),
                Err(e) => order_error(old(self)@, taker) == Some(e) && final(self)@ == old(self)@,
            },
    {
        let zero = Decimal::zero();
        if value_le(&taker.price, &zero) {
            return Err(EngineError::InvalidPrice(taker.price));
        }
        if value_le(&taker.amount, &zero) {
            return Err(EngineError::InvalidAmount(taker.amount));
        }
        if self.has_order(taker.id) {
            return Err(EngineError::DuplicateOrderId(taker.id));
        }
        let ghost b0 = self@;
        let ghost t0 = taker;
        proof {
            lemma_match_run_facts(b0, t0);
        }
        let mut taker = taker;
        let mut trades: Vec<Trade> = Vec::new();
        if taker.is_filled() {
            // Nothing left to fill: one step still happens when a resting order
            // crosses, trading the (zero or negative) remaining quantity.
            let _ = self.fill_one(&mut taker, &mut trades);
            proof {
                assert(trades@ =~= match_run(b0, t0).2);
            }
        } else {
            self.fill(&mut taker, &mut trades);
            proof {
                assert(trades@ =~= match_run(b0, t0).2);
            }
        }
        if !taker.is_filled() {
            proof {
                if self@.contains_id(taker.id) {
                    assert(b0.contains_id(t0.id));
                }
            }
            self.insert_resting_order(taker);
        }
        Ok(trades)
    }
}

/// One price level of a depth snapshot: price and total remaining quantity.
pub type DepthLevel = (Decimal, Decimal);

/// Bid levels (highest price first) and ask levels (lowest price first).
pub type DepthSnapshot = (Vec<DepthLevel>, Vec<DepthLevel>);

impl OrderBook {
    /// The first `limit` levels of `side` as (price, total) pairs.
    fn depth_side(&self, side: Side, limit: usize) -> (r: Vec<DepthLevel>)
        requires
            self.wf(),
        ensures
            r@ == depth(self@.side(side), limit as nat),
    {
        let levels = match side {
            Side::Buy => &self.bids,
            Side::Sell => &self.asks,
        };
        let ghost lv = self@.side(side);
        let n = if limit < levels.len() {
            limit
        } else {
            levels.len()
        };
        let mut out: Vec<DepthLevel> = Vec::new();
        let mut i: usize = 0;
        while i < n
            invariant
                levels@ == self.levels(side),
                lv == self@.side(side),
                lv.len() == levels@.len(),
                n <= levels.len(),
                i <= n,
                out@ == lv.take(i as int).map_values(|l: LevelView| (l.price, l.total_qty)),
            decreases n - i,
        {
            proof {
                assert(lv[i as int].price == levels@[i as int].price);
                assert(lv[i as int].total_qty == levels@[i as int].total_qty);
            }
            out.push((levels[i].price, levels[i].total_qty));
            i = i + 1;
            proof {
                assert(lv.take(i as int) =~= lv.take(i - 1).push(lv[i - 1]));
                assert(out@ =~= lv.take(i as int).map_values(|l: LevelView| (l.price, l.total_qty)));
            }
        }
        out
    }

    /// Return the top-`limit` price levels on each side as (price, total_remaining) pairs.
    ///
    /// Bids are returned highest-price-first; asks lowest-price-first.
    /// `total_remaining` is the sum of `remaining` across all orders at that level.
    pub fn depth_snapshot(&self, limit: usize) -> (r: DepthSnapshot)
        requires
            self.wf(),
        ensures
            r.0@ == depth(self@.bids, limit as nat),
            r.1@ == depth(self@.asks, limit as nat),
    {
        let bids = self.depth_side(Side::Buy, limit);
        let asks = self.depth_side(Side::Sell, limit);
        (bids, asks)
    }

    /// Appends copies of the orders of level `i` of `side`, in arrival order.
    fn collect_level(&self, side: Side, i: usize, out: &mut Vec<Order>)
        requires
            self.wf(),
            i < self@.side(side).len(),
        ensures
            final(out)@ == old(out)@ + self@.side(side)[i as int].orders,
    {
        let ghost out0 = out@;
        let queue = match side {
            Side::Buy => &self.bids[i].queue,
            Side::Sell => &self.asks[i].queue,
        };
        let ghost os = self@.side(side)[i as int].orders;
        let mut j: usize = 0;
        while j < queue.len()
            invariant
                self.wf(),
                i < self.levels(side).len(),
                queue@ == self.levels(side)[i as int].queue@,
                os == self@.side(side)[i as int].orders,
                os.len() == queue@.len(),
                j <= queue.len(),
                out@ == out0 + os.take(j as int),
            decreases queue.len() - j,
        {
            let key = queue[j];
            proof {
                assert(self.node_ok(side, key));
                assert(os[j as int] == self.slots()[key].order);
            }
            let node = slots_get(&self.orders, key).unwrap();
            out.push(node.order.clone());
            j = j + 1;
            proof {
                assert(os.take(j as int) =~= os.take(j - 1).push(os[j - 1]));
                assert(out@ =~= out0 + os.take(j as int));
            }
        }
        proof {
            assert(os.take(j as int) =~= os);
        }
    }

    /// Appends copies of the orders of `side`, level by level in priority order,
    /// each level in arrival order.
    fn collect_side(&self, side: Side, out: &mut Vec<Order>)
        requires
            self.wf(),
        ensures
            final(out)@ == old(out)@ + level_orders(self@.side(side)),
    {
        let ghost out0 = out@;
        let ghost lv = self@.side(side);
        let n = match side {
            Side::Buy => self.bids.len(),
            Side::Sell => self.asks.len(),
        };
        let mut i: usize = 0;
        while i < n
            invariant
                self.wf(),
                lv == self@.side(side),
                n == lv.len(),
                i <= n,
                out@ == out0 + level_orders(lv.take(i as int)),
            decreases n - i,
        {
            let ghost before = out@;
            self.collect_level(side, i, out);
            proof {
                assert(lv.take(i + 1) =~= lv.take(i as int).push(lv[i as int]));
                crate::book_model::lemma_level_orders_push(lv.take(i as int), lv[i as int]);
                assert(out@ =~= out0 + level_orders(lv.take(i + 1)));
            }
            i = i + 1;
        }
        proof {
            assert(lv.take(n as int) =~= lv);
        }
    }

    /// Return a cloned list of all resting orders currently in this book.
    ///
    /// The list preserves per-level FIFO order and price-level ordering
    /// (bids high->low, asks low->high).
    pub fn open_orders(&self) -> (r: Vec<Order>)
        requires
            self.wf(),
        ensures
            r@ == level_orders(self@.bids) + level_orders(self@.asks),
    {
        let mut out: Vec<Order> = Vec::new();
        self.collect_side(Side::Buy, &mut out);
        self.collect_side(Side::Sell, &mut out);
        proof {
            assert(out@ =~= level_orders(self@.bids) + level_orders(self@.asks));
        }
        out
    }

    /// The orders resting at `price` on `side`, in arrival order (empty when no
    /// level has that price).
    pub fn orders_at_price(&self, side: Side, price: Decimal) -> (r: Vec<Order>)
        requires
            self.wf(),
            price.wf(),
        ensures
            r@ == orders_at(self@, side, price),
    {
        let i = self.seek_level(side, &price);
        let mut out: Vec<Order> = Vec::new();
        proof {
            reveal(BookView::valid);
            if i < self@.side(side).len() {
                assert(self@.side(side)[i as int].price.wf());
                assert(self@.side(side)[i as int].price == self.levels(side)[i as int].price);
            }
        }
        let found = match side {
            Side::Buy => i < self.bids.len() && value_eq(&self.bids[i].price, &price),
            Side::Sell => i < self.asks.len() && value_eq(&self.asks[i].price, &price),
        };
        if found {
            self.collect_level(side, i, &mut out);
            proof {
                assert(out@ =~= orders_at(self@, side, price));
            }
        } else {
            proof {
                assert(out@ =~= orders_at(self@, side, price));
            }
        }
        out
    }
}

impl Default for OrderBook {
    fn default() -> (r: OrderBook)
        ensures
            r.wf(),
            r@.bids.len() == 0,
            r@.asks.len() == 0,
    {
        OrderBook::new()
    }
}

} // verus!

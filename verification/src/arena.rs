//! Storage of resting orders in a `slotmap::SlotMap`. Keys are handled as the
//! `u64` that `KeyData::as_ffi` gives, so the rest of the library sees plain
//! integers.

use vstd::prelude::*;

use slotmap::{DefaultKey, Key, KeyData, SlotMap};

use crate::decimal::Decimal;
use crate::types::{Order, Side};

verus! {

/// The slot map that stores resting orders. Verus cannot take the declaration of
/// `SlotMap` itself (its key parameter is bound by `slotmap::Key`), so the map is
/// held in a field that only the functions below touch.
#[verifier::external_body]
pub struct OrderSlots {
    inner: SlotMap<DefaultKey, OrderNode>,
}

/// A resting order together with the side and price level it rests on.
pub struct OrderNode {
    pub order: Order,
    pub side: Side,
    pub price: Decimal,
}

/// The stored orders, keyed by the `as_ffi` form of their slot key.
pub uninterp spec fn slot_contents(m: OrderSlots) -> Map<u64, OrderNode>;

/// `SlotMap::with_key`: an empty map.
#[verifier::external_body]
pub(crate) fn slots_new() -> (fresh: OrderSlots)
    ensures
        slot_contents(fresh).dom().len() == 0 && slot_contents(fresh).dom().finite(),
{
    OrderSlots { inner: SlotMap::with_key() }
}

/// `SlotMap::insert`: stores the value in a vacant slot and returns its key, which
/// no stored value had. It panics only when all `u32::MAX` slots are taken, which
/// fewer stored values than that rule out.
#[verifier::external_body]
pub(crate) fn slots_insert(m: &mut OrderSlots, node: OrderNode) -> (k: u64)
    requires
        slot_contents(*old(m)).len() + 2 < u32::MAX,
    ensures
        !slot_contents(*old(m)).contains_key(k),
        slot_contents(*final(m)) == slot_contents(*old(m)).insert(k, node),
{
    m.inner.insert(node).data().as_ffi()
}

/// `SlotMap::get`: the value stored under a key that `as_ffi` produced.
#[verifier::external_body]
pub(crate) fn slots_get(m: &OrderSlots, k: u64) -> (r: Option<&OrderNode>)
    ensures
        slot_contents(*m).contains_key(k) ==> r == Some(&slot_contents(*m)[k]),
{
    m.inner.get(KeyData::from_ffi(k).into())
}

/// `SlotMap`'s `IndexMut`: overwrites the value stored under a live key; it panics
/// on a key that holds nothing, which the precondition rules out.
#[verifier::external_body]
pub(crate) fn slots_set(m: &mut OrderSlots, k: u64, node: OrderNode)
    requires
        slot_contents(*old(m)).contains_key(k),
    ensures
        slot_contents(*final(m)) == slot_contents(*old(m)).insert(k, node),
{
    m.inner[KeyData::from_ffi(k).into()] = node;
}

/// `SlotMap::remove`: takes out the value stored under a live key.
#[verifier::external_body]
pub(crate) fn slots_remove(m: &mut OrderSlots, k: u64) -> (r: Option<OrderNode>)
    ensures
        slot_contents(*old(m)).contains_key(k) ==> {
            &&& r == Some(slot_contents(*old(m))[k])
            &&& slot_contents(*final(m)) == slot_contents(*old(m)).remove(k)
        },
{
    m.inner.remove(KeyData::from_ffi(k).into())
}

} // verus!

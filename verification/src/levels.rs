//! One side of a book: price levels in a `BTreeMap`, each a queue of orders
//! in arrival order.

use crate::model::{advance, enqueue, fill, is_greatest, is_least};
use crate::order::{orders_view, Order, OrderView};
use std::collections::BTreeMap;
use std::collections::VecDeque;
use vstd::prelude::*;

verus! {

/// The value of one side: at each price the values of the orders queued
/// there.
pub(crate) open spec fn queues_view(levels: Map<u32, VecDeque<Order>>) -> Map<u32, Seq<OrderView>> {
    Map::new(|p: u32| levels.contains_key(p), |p: u32| orders_view(levels[p]@))
}

/// The greatest key of the map, from `BTreeMap::last_key_value`, which
/// returns the entry with the maximum key and `None` for an empty map. The
/// contract is trusted: the result is a key of the map that no key exceeds,
/// or `None` where the map has no key.
#[verifier::external_body]
pub(crate) fn highest_price<V>(levels: &BTreeMap<u32, V>) -> (best: Option<u32>)
    ensures
        match best {
            Some(p) => is_greatest(levels@.dom(), p),
            None => forall|q: u32| !levels@.contains_key(q),
        },
{
    match levels.last_key_value() {
        Some((price, _)) => Some(*price),
        None => None,
    }
}

/// The least key of the map, from `BTreeMap::first_key_value`, which returns
/// the entry with the minimum key and `None` for an empty map. The contract
/// is trusted: the result is a key of the map that exceeds no key, or `None`
/// where the map has no key.
#[verifier::external_body]
pub(crate) fn lowest_price<V>(levels: &BTreeMap<u32, V>) -> (best: Option<u32>)
    ensures
        match best {
            Some(p) => is_least(levels@.dom(), p),
            None => forall|q: u32| !levels@.contains_key(q),
        },
{
    match levels.first_key_value() {
        Some((price, _)) => Some(*price),
        None => None,
    }
}

/// Puts `order` at the tail of the queue at its price, opening the level
/// where no order rests there yet.
pub(crate) fn join_queue(levels: &mut BTreeMap<u32, VecDeque<Order>>, order: Order)
    ensures
        queues_view(final(levels)@) == enqueue(queues_view(old(levels)@), order@),
{
    let price: u32 = order.price;
    let mut queue = match levels.remove(&price) {
        Some(queue) => queue,
        None => VecDeque::new(),
    };
    let ghost before = queue@;
    queue.push_back(order);
    levels.insert(price, queue);
    proof {
        if old(levels)@.contains_key(price) {
            assert(orders_view(before.push(order)) =~= orders_view(before).push(order@));
        } else {
            assert(orders_view(before.push(order)) =~= seq![order@]);
        }
        assert(queues_view(levels@) =~= enqueue(queues_view(old(levels)@), order@));
    }
}

/// The oldest order at price `p`, or `None` where no order rests at `p`.
pub(crate) fn front_order(levels: &BTreeMap<u32, VecDeque<Order>>, p: u32) -> (front: Option<
    &Order,
>)
    ensures
        match front {
            Some(o) => queues_view(levels@).contains_key(p) && queues_view(levels@)[p].len() > 0
                && o@ == queues_view(levels@)[p][0],
            None => !queues_view(levels@).contains_key(p) || queues_view(levels@)[p].len() == 0,
        },
{
    match levels.get(&p) {
        Some(queue) => {
            if queue.len() > 0 {
                Some(&queue[0])
            } else {
                None
            }
        },
        None => None,
    }
}

/// Fills `n` units of the oldest order at price `p`. An order of which
/// nothing is left leaves its queue, and an emptied level leaves the side.
pub(crate) fn fill_front(levels: &mut BTreeMap<u32, VecDeque<Order>>, p: u32, n: u32)
    requires
        old(levels)@.contains_key(p),
        old(levels)@[p]@.len() > 0,
        n <= old(levels)@[p]@[0].size,
    ensures
        queues_view(final(levels)@) == advance(queues_view(old(levels)@), p, n as nat),
{
    let ghost was = old(levels)@[p]@;
    let removed = levels.remove(&p);
    let mut queue = removed.unwrap();
    let popped = queue.pop_front();
    let mut front = popped.unwrap();
    let ghost oldest = front;
    front.size = front.size - n;
    if front.size > 0 {
        queue.push_front(front);
    }
    proof {
        assert(front@ == fill(oldest@, n as nat));
        if oldest.size > n {
            assert(orders_view(queue@) =~= orders_view(was).update(0, fill(oldest@, n as nat)));
        } else {
            assert(orders_view(queue@) =~= orders_view(was).drop_first());
        }
    }
    if queue.len() > 0 {
        levels.insert(p, queue);
    }
    proof {
        assert(queues_view(levels@) =~= advance(queues_view(old(levels)@), p, n as nat));
    }
}

} // verus!

//! What holds of matching, proved over the model.
//!
//! `OrderBook::match_orders` leaves the book `settled()` and records
//! `fills()`, which are `after(n)` and `fills_within(n)` for every `n` from
//! the number of resting orders on. The theorems below speak of every `n`,
//! and so of every state that matching passes through.

use crate::model::{
    advance, has_orders, lemma_advance, lemma_best_prices_exist, lemma_enough_steps,
    lemma_settle_at_rest, lemma_step, queue_wf, side_size, BookView,
};
use crate::order::{buy_side, sell_side, OrderView, Trade};
use vstd::prelude::*;

verus! {

/// `now` is what is left of the queue `before` after orders were filled from
/// its front: a tail of `before`, in which only the order at the front may
/// have lost some of its size.
pub open spec fn served_from_front(before: Seq<OrderView>, now: Seq<OrderView>) -> bool {
    &&& now.len() <= before.len()
    &&& forall|i: int|
        0 <= i < now.len() ==> {
            let was = before[i + (before.len() - now.len())];
            &&& (#[trigger] now[i]) == OrderView { size: now[i].size, ..was }
            &&& now[i].size <= was.size
            &&& i > 0 ==> now[i].size == was.size
        }
}

/// What is left of the order that stands `k` places before the tail of the
/// queue at price `p`, or 0 where no order stands there. Matching takes
/// orders from the front of a queue only, so an order keeps its distance
/// from the tail for as long as it rests.
pub open spec fn left_of(levels: Map<u32, Seq<OrderView>>, p: u32, k: nat) -> nat {
    if levels.contains_key(p) && k < levels[p].len() {
        levels[p][levels[p].len() - 1 - k].size
    } else {
        0
    }
}

/// The quantity that the next crossing step fills of the order `k` places
/// before the tail of the queue at price `p`, among the bids where `is_buy`
/// holds, else among the asks.
pub open spec fn filled_next(b: BookView, is_buy: bool, p: u32, k: nat) -> nat {
    if b.crossable() && b.best(is_buy) == p && b.side(is_buy)[p].len() == k + 1 {
        b.cross_size()
    } else {
        0
    }
}

/// The quantity that the steps of `after(n)` fill of that order: the sum of
/// the sizes of the trades made against it.
pub open spec fn filled_within(b: BookView, n: nat, is_buy: bool, p: u32, k: nat) -> nat
    decreases n,
{
    if n == 0 || !b.crossable() {
        0
    } else {
        filled_next(b, is_buy, p, k) + filled_within(b.step(), (n - 1) as nat, is_buy, p, k)
    }
}

/// The sum of the sizes of a sequence of trades.
pub open spec fn traded(trades: Seq<Trade>) -> nat
    decreases trades.len(),
{
    if trades.len() == 0 {
        0
    } else {
        trades[0].size + traded(trades.drop_first())
    }
}

/// Crossing steps keep a book well formed.
pub proof fn lemma_after_is_wf(b: BookView, n: nat)
    requires
        b.wf(),
    ensures
        b.after(n).wf(),
    decreases n,
{
    if n > 0 && b.crossable() {
        lemma_step(b);
        lemma_after_is_wf(b.step(), (n - 1) as nat);
    }
}

/// Every recorded trade is the trade of one crossing step: the trade at
/// index `i` is made in the book that the first `i` steps leave, a
/// well-formed book in which orders cross. Its size is the smaller of the
/// sizes of the two orders at the front of the best bid and the best ask of
/// that book, so it exceeds neither. Its price is the best ask, which is the
/// price of the sell order and no more than the price of the buy order.
pub proof fn lemma_trade_comes_from_a_step(b: BookView, n: nat, i: int)
    requires
        b.wf(),
        0 <= i < b.fills_within(n).len(),
    ensures
        i < n,
        b.after(i as nat).wf(),
        b.after(i as nat).crossable(),
        b.fills_within(n)[i] == b.after(i as nat).cross_trade(),
        b.fills_within(n)[i].size <= b.after(i as nat).front_bid().size,
        b.fills_within(n)[i].size <= b.after(i as nat).front_ask().size,
        b.fills_within(n)[i].size == b.after(i as nat).front_bid().size || b.fills_within(
            n,
        )[i].size == b.after(i as nat).front_ask().size,
        b.fills_within(n)[i].price == b.after(i as nat).best_ask(),
        b.fills_within(n)[i].price == b.after(i as nat).front_ask().price,
        b.fills_within(n)[i].price <= b.after(i as nat).front_bid().price,
    decreases n,
{
    lemma_after_is_wf(b, i as nat);
    let at = b.after(i as nat);
    if i == 0 {
        lemma_best_prices_exist(at);
        assert(queue_wf(at.bids[at.best_bid()], at.best_bid(), buy_side()));
        assert(queue_wf(at.asks[at.best_ask()], at.best_ask(), sell_side()));
    }
    if i > 0 {
        lemma_step(b);
        lemma_trade_comes_from_a_step(b.step(), (n - 1) as nat, i - 1);
    }
}

/// A crossing step serves each queue from its front, and fills of each order
/// exactly what the order loses.
pub proof fn lemma_step_serves_queues(b: BookView, is_buy: bool, p: u32, k: nat)
    requires
        b.wf(),
        b.crossable(),
    ensures
        b.step().side(is_buy).contains_key(p) ==> b.side(is_buy).contains_key(p)
            && served_from_front(b.side(is_buy)[p], b.step().side(is_buy)[p]),
        p != b.best(is_buy) ==> (b.step().side(is_buy).contains_key(p) <==> b.side(
            is_buy,
        ).contains_key(p)),
        p != b.best(is_buy) && b.side(is_buy).contains_key(p) ==> b.step().side(is_buy)[p]
            == b.side(is_buy)[p],
        filled_next(b, is_buy, p, k) + left_of(b.step().side(is_buy), p, k) == left_of(
            b.side(is_buy),
            p,
            k,
        ),
{
    lemma_best_prices_exist(b);
    let levels = b.side(is_buy);
    let best = b.best(is_buy);
    let n = b.cross_size();
    let side = if is_buy {
        buy_side()
    } else {
        sell_side()
    };
    assert(b.step().side(is_buy) == advance(levels, best, n));
    lemma_advance(levels, side, best, n);
    assert(queue_wf(levels[best], best, side));
    if levels.contains_key(p) {
        assert(queue_wf(levels[p], p, side));
    }
}

/// Time priority. In every book that matching passes through, each queue is
/// a tail of the queue that rested at its price before, and every order
/// behind the front of its queue is as large as it was. So of two orders at
/// one price on one side, no part of the later one is filled before the
/// earlier one was filled wholly and left. No price level appears.
pub proof fn lemma_time_priority(b: BookView, n: nat, is_buy: bool, p: u32)
    requires
        b.wf(),
        b.after(n).side(is_buy).contains_key(p),
    ensures
        b.side(is_buy).contains_key(p),
        served_from_front(b.side(is_buy)[p], b.after(n).side(is_buy)[p]),
    decreases n,
{
    if n > 0 && b.crossable() {
        lemma_step(b);
        lemma_time_priority(b.step(), (n - 1) as nat, is_buy, p);
        lemma_step_serves_queues(b, is_buy, p, 0);
        let first = b.side(is_buy)[p];
        let mid = b.step().side(is_buy)[p];
        let last = b.after(n).side(is_buy)[p];
        assert forall|i: int| 0 <= i < last.len() implies {
            let was = first[i + (first.len() - last.len())];
            &&& (#[trigger] last[i]) == OrderView { size: last[i].size, ..was }
            &&& last[i].size <= was.size
            &&& i > 0 ==> last[i].size == was.size
        } by {
            let j = i + (mid.len() - last.len());
            assert(last[i] == OrderView { size: last[i].size, ..mid[j] });
        }
    } else {
        let queue = b.side(is_buy)[p];
        assert forall|i: int| 0 <= i < queue.len() implies (#[trigger] queue[i]) == (OrderView {
            size: queue[i].size,
            ..queue[i]
        }) by {}
    }
}

/// Price priority. While an order rests at a better price (a higher bid, a
/// lower ask), no order at a worse price on that side is filled at all: in a
/// book that matching passes through and in which the better level still
/// holds an order, the worse level is as it was.
pub proof fn lemma_price_priority(b: BookView, n: nat, is_buy: bool, better: u32, worse: u32)
    requires
        b.wf(),
        is_buy ==> better > worse,
        !is_buy ==> better < worse,
        b.after(n).side(is_buy).contains_key(better),
    ensures
        b.after(n).side(is_buy).contains_key(worse) <==> b.side(is_buy).contains_key(worse),
        b.side(is_buy).contains_key(worse) ==> b.after(n).side(is_buy)[worse] == b.side(
            is_buy,
        )[worse],
    decreases n,
{
    if n > 0 && b.crossable() {
        lemma_step(b);
        lemma_price_priority(b.step(), (n - 1) as nat, is_buy, better, worse);
        lemma_time_priority(b.step(), (n - 1) as nat, is_buy, better);
        lemma_step_serves_queues(b, is_buy, better, 0);
        lemma_step_serves_queues(b, is_buy, worse, 0);
        lemma_best_prices_exist(b);
        assert(b.side(is_buy).contains_key(better));
        assert(has_orders(b.side(is_buy)));
    }
}

/// Partial-fill conservation. What matching has filled of an order and what
/// is left of it add up to its size before: the trades made against one
/// order never sum to more than the order.
pub proof fn lemma_fills_are_conserved(b: BookView, n: nat, is_buy: bool, p: u32, k: nat)
    requires
        b.wf(),
    ensures
        filled_within(b, n, is_buy, p, k) + left_of(b.after(n).side(is_buy), p, k) == left_of(
            b.side(is_buy),
            p,
            k,
        ),
        filled_within(b, n, is_buy, p, k) <= left_of(b.side(is_buy), p, k),
    decreases n,
{
    if n > 0 && b.crossable() {
        lemma_step(b);
        lemma_step_serves_queues(b, is_buy, p, k);
        lemma_fills_are_conserved(b.step(), (n - 1) as nat, is_buy, p, k);
    }
}

/// Each crossing step removes an order from the book and takes the quantity
/// exchanged from the resting size of each side.
pub proof fn lemma_step_shrinks_book(b: BookView)
    requires
        b.wf(),
        b.crossable(),
    ensures
        b.step().order_count() < b.order_count(),
        b.step().resident_size() + 2 * b.cross_size() == b.resident_size(),
{
    lemma_step(b);
}

/// Termination measure. In a book none of whose orders is spent, a crossing
/// step exchanges at least one unit, leaves no spent order behind, and
/// lowers the resting size of the book by more than the size of its trade.
pub proof fn lemma_step_lowers_resident_size(b: BookView)
    requires
        b.wf(),
        b.no_spent_order(),
        b.crossable(),
    ensures
        b.cross_trade().size >= 1,
        b.step().resident_size() + b.cross_trade().size < b.resident_size(),
        b.step().no_spent_order(),
{
    lemma_step(b);
    lemma_best_prices_exist(b);
    let bid = b.side(true)[b.best_bid()][0];
    let ask = b.side(false)[b.best_ask()][0];
    assert(queue_wf(b.bids[b.best_bid()], b.best_bid(), buy_side()));
    assert(queue_wf(b.asks[b.best_ask()], b.best_ask(), sell_side()));
    assert(bid.size > 0 && ask.size > 0);
    let next = b.step();
    assert forall|is_buy: bool, p: u32, i: int|
        next.side(is_buy).contains_key(p) && 0 <= i < next.side(is_buy)[p].len() implies (
    #[trigger] next.side(is_buy)[p][i]).size > 0 by {
        lemma_step_serves_queues(b, is_buy, p, 0);
        let before = b.side(is_buy)[p];
        let now = next.side(is_buy)[p];
        if p == b.best(is_buy) {
            let j = i + (before.len() - now.len());
            assert(before[j].size > 0);
            if before[0].size > b.cross_size() {
                assert(now[i].size > 0);
            } else {
                assert(now[i] == before[i + 1]);
            }
        } else {
            assert(now[i] == before[i]);
        }
    }
}

/// Submitting an order that has something to fill leaves no spent order in
/// a book that held none.
pub proof fn lemma_with_order_keeps_orders_unspent(b: BookView, o: OrderView)
    requires
        b.no_spent_order(),
        o.size > 0,
    ensures
        b.with_order(o).no_spent_order(),
{
    let next = b.with_order(o);
    assert forall|is_buy: bool, p: u32, i: int|
        next.side(is_buy).contains_key(p) && 0 <= i < next.side(is_buy)[p].len() implies (
    #[trigger] next.side(is_buy)[p][i]).size > 0 by {
        if next.side(is_buy) != b.side(is_buy) && p == o.price {
            if b.side(is_buy).contains_key(p) && i < b.side(is_buy)[p].len() {
                assert(next.side(is_buy)[p][i] == b.side(is_buy)[p][i]);
            }
        } else {
            assert(next.side(is_buy)[p][i] == b.side(is_buy)[p][i]);
        }
    }
}

/// No cross is left. In a settled book no order rests among the bids, or
/// none among the asks, or the best bid is below the best ask.
pub proof fn lemma_settled_book_does_not_cross(b: BookView)
    requires
        b.wf(),
    ensures
        !b.settled().crossable(),
        !has_orders(b.settled().bids) || !has_orders(b.settled().asks) || b.settled().best_bid()
            < b.settled().best_ask(),
    decreases b.order_count(),
{
    if b.crossable() {
        lemma_step(b);
        lemma_enough_steps(b.step(), (b.order_count() - 1) as nat);
        lemma_settled_book_does_not_cross(b.step());
    }
}

/// Matching is idempotent at rest. Settling a settled book records no trade
/// and leaves the book as it is.
pub proof fn lemma_settling_twice_changes_nothing(b: BookView)
    requires
        b.wf(),
    ensures
        b.settled().settled() == b.settled(),
        b.settled().fills() == Seq::<Trade>::empty(),
{
    lemma_settled_book_does_not_cross(b);
    lemma_settle_at_rest(b.settled());
}

/// Settling conserves size: what rests on each side before is what rests
/// there afterwards and the sizes of the recorded trades.
pub proof fn lemma_settling_conserves_size(b: BookView, n: nat)
    requires
        b.wf(),
    ensures
        side_size(b.after(n).bids) + traded(b.fills_within(n)) == side_size(b.bids),
        side_size(b.after(n).asks) + traded(b.fills_within(n)) == side_size(b.asks),
    decreases n,
{
    if n > 0 && b.crossable() {
        lemma_step(b);
        lemma_settling_conserves_size(b.step(), (n - 1) as nat);
        let trades = b.fills_within(n);
        assert(trades.drop_first() =~= b.step().fills_within((n - 1) as nat));
    }
}

} // verus!

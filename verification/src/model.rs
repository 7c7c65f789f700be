//! The mathematical model of an order book and of matching.
//!
//! A book is two maps from a price to the queue of orders resting at that
//! price, oldest first. Matching is a sequence of crossing steps: each step
//! fills the oldest order at the highest bid against the oldest order at the
//! lowest ask.

use crate::order::{buy_side, sell_side, OrderView, Trade};
use vstd::prelude::*;

verus! {

/// The value of an order book: the resting buy orders and the resting sell
/// orders, each grouped by price and queued by arrival.
pub struct BookView {
    pub bids: Map<u32, Seq<OrderView>>,
    pub asks: Map<u32, Seq<OrderView>>,
}

/// `p` is the greatest price in `prices`.
pub open spec fn is_greatest(prices: Set<u32>, p: u32) -> bool {
    prices.contains(p) && forall|q: u32| prices.contains(q) ==> q <= p
}

/// `p` is the least price in `prices`.
pub open spec fn is_least(prices: Set<u32>, p: u32) -> bool {
    prices.contains(p) && forall|q: u32| prices.contains(q) ==> p <= q
}

/// Some order rests on this side.
pub open spec fn has_orders(levels: Map<u32, Seq<OrderView>>) -> bool {
    exists|p: u32| levels.contains_key(p)
}

/// A queue that may rest at price `p` on the side named `side`: it is not
/// empty, and each of its orders carries that price and that side.
pub open spec fn queue_wf(queue: Seq<OrderView>, p: u32, side: Seq<char>) -> bool {
    &&& queue.len() > 0
    &&& forall|i: int|
        0 <= i < queue.len() ==> (#[trigger] queue[i]).price == p && queue[i].order_type == side
}

/// Every price level of one side holds a well-formed queue.
pub open spec fn side_wf(levels: Map<u32, Seq<OrderView>>, side: Seq<char>) -> bool {
    forall|p: u32| #[trigger] levels.contains_key(p) ==> queue_wf(levels[p], p, side)
}

/// One past the greatest price.
pub open spec fn price_bound() -> nat {
    0x1_0000_0000
}

/// The weight that counts the orders of a queue.
pub open spec fn by_count() -> spec_fn(Seq<OrderView>) -> nat {
    |queue: Seq<OrderView>| queue.len()
}

/// The sum of the sizes of the orders of a queue.
pub open spec fn queue_size(queue: Seq<OrderView>) -> nat
    decreases queue.len(),
{
    if queue.len() == 0 {
        0
    } else {
        queue[0].size + queue_size(queue.drop_first())
    }
}

/// The weight that sums the sizes of the orders of a queue.
pub open spec fn by_size() -> spec_fn(Seq<OrderView>) -> nat {
    |queue: Seq<OrderView>| queue_size(queue)
}

/// The weight of the level at price `p`, or 0 where no order rests at `p`.
pub open spec fn weight_at(
    levels: Map<u32, Seq<OrderView>>,
    weight: spec_fn(Seq<OrderView>) -> nat,
    p: u32,
) -> nat {
    if levels.contains_key(p) {
        weight(levels[p])
    } else {
        0
    }
}

/// The sum of the weights of the levels at prices below `bound`.
pub open spec fn weight_below(
    levels: Map<u32, Seq<OrderView>>,
    weight: spec_fn(Seq<OrderView>) -> nat,
    bound: nat,
) -> nat
    decreases bound,
{
    if bound == 0 {
        0
    } else {
        weight_below(levels, weight, (bound - 1) as nat) + weight_at(
            levels,
            weight,
            (bound - 1) as u32,
        )
    }
}

/// The number of orders resting on one side.
pub open spec fn side_count(levels: Map<u32, Seq<OrderView>>) -> nat {
    weight_below(levels, by_count(), price_bound())
}

/// The sum of the sizes of the orders resting on one side.
pub open spec fn side_size(levels: Map<u32, Seq<OrderView>>) -> nat {
    weight_below(levels, by_size(), price_bound())
}

/// The order `o` after `n` of its units were filled.
pub open spec fn fill(o: OrderView, n: nat) -> OrderView {
    OrderView { size: (o.size - n) as nat, ..o }
}

/// One side after the order `o` joined the tail of the queue at its price.
pub open spec fn enqueue(levels: Map<u32, Seq<OrderView>>, o: OrderView) -> Map<
    u32,
    Seq<OrderView>,
> {
    if levels.contains_key(o.price) {
        levels.insert(o.price, levels[o.price].push(o))
    } else {
        levels.insert(o.price, seq![o])
    }
}

/// One side after `n` units of the oldest order at price `p` were filled: the
/// order stays at the front with its size reduced, or leaves when nothing of
/// it is left, and the level leaves with its last order.
pub open spec fn advance(levels: Map<u32, Seq<OrderView>>, p: u32, n: nat) -> Map<
    u32,
    Seq<OrderView>,
> {
    let queue = levels[p];
    if queue[0].size > n {
        levels.insert(p, queue.update(0, fill(queue[0], n)))
    } else if queue.len() > 1 {
        levels.insert(p, queue.drop_first())
    } else {
        levels.remove(p)
    }
}

impl BookView {
    /// A book in which no order rests.
    pub open spec fn empty() -> BookView {
        BookView { bids: Map::empty(), asks: Map::empty() }
    }

    /// Both sides are well formed: buy orders rest among the bids, sell
    /// orders among the asks, each at its own price, and no level is empty.
    pub open spec fn wf(self) -> bool {
        side_wf(self.bids, buy_side()) && side_wf(self.asks, sell_side())
    }

    /// The bids where `is_buy` holds, else the asks.
    pub open spec fn side(self, is_buy: bool) -> Map<u32, Seq<OrderView>> {
        if is_buy {
            self.bids
        } else {
            self.asks
        }
    }

    /// The book after `o` was submitted: a buy order joins the bids, a sell
    /// order joins the asks, and an order of any other side is discarded.
    pub open spec fn with_order(self, o: OrderView) -> BookView {
        if o.order_type == buy_side() {
            BookView { bids: enqueue(self.bids, o), asks: self.asks }
        } else if o.order_type == sell_side() {
            BookView { bids: self.bids, asks: enqueue(self.asks, o) }
        } else {
            self
        }
    }

    /// Every resting order has something left to fill.
    pub open spec fn no_spent_order(self) -> bool {
        forall|is_buy: bool, p: u32, i: int|
            self.side(is_buy).contains_key(p) && 0 <= i < self.side(is_buy)[p].len() ==> (
            #[trigger] self.side(is_buy)[p][i]).size > 0
    }

    /// The best price of a side: the best bid where `is_buy` holds, else the
    /// best ask.
    pub open spec fn best(self, is_buy: bool) -> u32 {
        if is_buy {
            self.best_bid()
        } else {
            self.best_ask()
        }
    }

    /// The highest price at which a buy order rests.
    pub open spec fn best_bid(self) -> u32 {
        choose|p: u32| is_greatest(self.bids.dom(), p)
    }

    /// The lowest price at which a sell order rests.
    pub open spec fn best_ask(self) -> u32 {
        choose|p: u32| is_least(self.asks.dom(), p)
    }

    /// Orders rest on both sides, and the best bid is at or above the best
    /// ask.
    pub open spec fn crossable(self) -> bool {
        has_orders(self.bids) && has_orders(self.asks) && self.best_bid() >= self.best_ask()
    }

    /// The buy order that the next crossing step fills.
    pub open spec fn front_bid(self) -> OrderView {
        self.bids[self.best_bid()][0]
    }

    /// The sell order that the next crossing step fills.
    pub open spec fn front_ask(self) -> OrderView {
        self.asks[self.best_ask()][0]
    }

    /// The quantity that the next crossing step exchanges.
    pub open spec fn cross_size(self) -> nat {
        if self.front_bid().size <= self.front_ask().size {
            self.front_bid().size
        } else {
            self.front_ask().size
        }
    }

    /// The trade that the next crossing step records, at the price of the
    /// best ask.
    pub open spec fn cross_trade(self) -> Trade {
        Trade {
            sid: self.front_ask().id,
            bid: self.front_bid().id,
            size: self.cross_size(),
            price: self.best_ask(),
        }
    }

    /// The book after one crossing step.
    pub open spec fn step(self) -> BookView {
        BookView {
            bids: advance(self.bids, self.best_bid(), self.cross_size()),
            asks: advance(self.asks, self.best_ask(), self.cross_size()),
        }
    }

    /// The book after crossing steps were taken until `n` were taken or no
    /// cross was left.
    pub open spec fn after(self, n: nat) -> BookView
        decreases n,
    {
        if n == 0 || !self.crossable() {
            self
        } else {
            self.step().after((n - 1) as nat)
        }
    }

    /// The trades that the steps of `after(n)` record, in order.
    pub open spec fn fills_within(self, n: nat) -> Seq<Trade>
        decreases n,
    {
        if n == 0 || !self.crossable() {
            Seq::empty()
        } else {
            seq![self.cross_trade()] + self.step().fills_within((n - 1) as nat)
        }
    }

    /// The number of orders resting in the book.
    pub open spec fn order_count(self) -> nat {
        side_count(self.bids) + side_count(self.asks)
    }

    /// The sum of the sizes of the orders resting in the book.
    pub open spec fn resident_size(self) -> nat {
        side_size(self.bids) + side_size(self.asks)
    }

    /// The book after every cross was settled. Each step removes an order,
    /// so as many steps as there are orders settle a well-formed book.
    pub open spec fn settled(self) -> BookView {
        self.after(self.order_count())
    }

    /// The trades that settling the book records, in order.
    pub open spec fn fills(self) -> Seq<Trade> {
        self.fills_within(self.order_count())
    }
}

/// Two sides hold the same queues at every price but `p`.
pub open spec fn same_but_at(
    a: Map<u32, Seq<OrderView>>,
    b: Map<u32, Seq<OrderView>>,
    p: u32,
) -> bool {
    forall|q: u32|
        q != p ==> (a.contains_key(q) <==> #[trigger] b.contains_key(q)) && (a.contains_key(q)
            ==> a[q] == b[q])
}

/// Where two sides differ at one price only, their weights differ by the
/// weights of that level.
pub proof fn lemma_weight_changes_at(
    a: Map<u32, Seq<OrderView>>,
    b: Map<u32, Seq<OrderView>>,
    weight: spec_fn(Seq<OrderView>) -> nat,
    p: u32,
    bound: nat,
)
    requires
        same_but_at(a, b, p),
        bound <= price_bound(),
    ensures
        p < bound ==> weight_below(b, weight, bound) + weight_at(a, weight, p) == weight_below(
            a,
            weight,
            bound,
        ) + weight_at(b, weight, p),
        p >= bound ==> weight_below(b, weight, bound) == weight_below(a, weight, bound),
    decreases bound,
{
    if bound > 0 {
        lemma_weight_changes_at(a, b, weight, p, (bound - 1) as nat);
        let q = (bound - 1) as u32;
        if q != p {
            assert(a.contains_key(q) <==> b.contains_key(q));
        }
    }
}

/// A greatest price determines the best bid.
pub proof fn lemma_best_bid_is(b: BookView, p: u32)
    requires
        is_greatest(b.bids.dom(), p),
    ensures
        b.best_bid() == p,
        has_orders(b.bids),
{
    assert(b.bids.contains_key(p));
    assert(is_greatest(b.bids.dom(), b.best_bid()));
}

/// A least price determines the best ask.
pub proof fn lemma_best_ask_is(b: BookView, p: u32)
    requires
        is_least(b.asks.dom(), p),
    ensures
        b.best_ask() == p,
        has_orders(b.asks),
{
    assert(b.asks.contains_key(p));
    assert(is_least(b.asks.dom(), b.best_ask()));
}

/// No price of `prices` is below `bound`.
pub open spec fn none_below(prices: Set<u32>, bound: nat) -> bool {
    forall|q: u32| q < bound ==> !prices.contains(q)
}

/// `p` is the greatest of the prices of `prices` that are below `bound`.
pub open spec fn greatest_below(prices: Set<u32>, bound: nat, p: u32) -> bool {
    p < bound && prices.contains(p) && forall|q: u32| q < bound && prices.contains(q) ==> q <= p
}

/// `p` is the least of the prices of `prices` that are below `bound`.
pub open spec fn least_below(prices: Set<u32>, bound: nat, p: u32) -> bool {
    p < bound && prices.contains(p) && forall|q: u32| q < bound && prices.contains(q) ==> p <= q
}

/// Among the prices below `bound`, a set of prices holds none or a greatest
/// one, which is returned.
proof fn lemma_greatest_below(prices: Set<u32>, bound: nat) -> (p: u32)
    requires
        bound <= price_bound(),
    ensures
        none_below(prices, bound) || greatest_below(prices, bound, p),
    decreases bound,
{
    if bound == 0 {
        0
    } else {
        let prev = lemma_greatest_below(prices, (bound - 1) as nat);
        let top = (bound - 1) as u32;
        if prices.contains(top) {
            top
        } else {
            prev
        }
    }
}

/// Among the prices below `bound`, a set of prices holds none or a least one,
/// which is returned.
proof fn lemma_least_below(prices: Set<u32>, bound: nat) -> (p: u32)
    requires
        bound <= price_bound(),
    ensures
        none_below(prices, bound) || least_below(prices, bound, p),
    decreases bound,
{
    if bound == 0 {
        0
    } else {
        let prev = lemma_least_below(prices, (bound - 1) as nat);
        let top = (bound - 1) as u32;
        if none_below(prices, (bound - 1) as nat) {
            top
        } else {
            prev
        }
    }
}

/// On a side where orders rest, the best bid and the best ask are prices of
/// that side, and no order rests beyond them.
pub proof fn lemma_best_prices_exist(b: BookView)
    ensures
        has_orders(b.bids) ==> is_greatest(b.bids.dom(), b.best_bid()),
        has_orders(b.asks) ==> is_least(b.asks.dom(), b.best_ask()),
{
    if has_orders(b.bids) {
        let hi = lemma_greatest_below(b.bids.dom(), price_bound());
        assert(is_greatest(b.bids.dom(), hi));
    }
    if has_orders(b.asks) {
        let lo = lemma_least_below(b.asks.dom(), price_bound());
        assert(is_least(b.asks.dom(), lo));
    }
}

/// Filling `n` units of the oldest order at price `p` keeps a side well
/// formed and touches no other level. It takes `n` from the sizes of the
/// side, and an order leaves exactly when all that was left of it is filled.
pub proof fn lemma_advance(levels: Map<u32, Seq<OrderView>>, side: Seq<char>, p: u32, n: nat)
    requires
        side_wf(levels, side),
        levels.contains_key(p),
        n <= levels[p][0].size,
    ensures
        side_wf(advance(levels, p, n), side),
        same_but_at(levels, advance(levels, p, n), p),
        side_count(advance(levels, p, n)) + (if levels[p][0].size == n {
            1nat
        } else {
            0nat
        }) == side_count(levels),
        side_size(advance(levels, p, n)) + n == side_size(levels),
{
    let queue = levels[p];
    let next = advance(levels, p, n);
    assert(queue_wf(queue, p, side));
    assert(queue_size(queue) == queue[0].size + queue_size(queue.drop_first()));
    if queue[0].size > n {
        let kept = queue.update(0, fill(queue[0], n));
        assert(kept.drop_first() =~= queue.drop_first());
        assert(queue_size(kept) == kept[0].size + queue_size(kept.drop_first()));
        assert(queue_wf(kept, p, side));
    } else if queue.len() > 1 {
        let rest = queue.drop_first();
        assert(queue_wf(rest, p, side)) by {
            assert forall|i: int| 0 <= i < rest.len() implies (#[trigger] rest[i]).price == p
                && rest[i].order_type == side by {
                assert(rest[i] == queue[i + 1]);
            }
        }
    } else {
        assert(queue.drop_first() =~= Seq::empty());
        assert(queue_size(queue.drop_first()) == 0);
    }
    assert(side_wf(next, side)) by {
        assert forall|q: u32| #[trigger] next.contains_key(q) implies queue_wf(
            next[q],
            q,
            side,
        ) by {
            if q != p {
                assert(levels.contains_key(q));
            }
        }
    }
    lemma_weight_changes_at(levels, next, by_count(), p, price_bound());
    lemma_weight_changes_at(levels, next, by_size(), p, price_bound());
}

/// A crossing step keeps a book well formed, removes at least one order and
/// takes the quantity exchanged from each side.
pub proof fn lemma_step(b: BookView)
    requires
        b.wf(),
        b.crossable(),
    ensures
        b.step().wf(),
        b.step().order_count() < b.order_count(),
        side_size(b.step().bids) + b.cross_size() == side_size(b.bids),
        side_size(b.step().asks) + b.cross_size() == side_size(b.asks),
{
    lemma_best_prices_exist(b);
    lemma_advance(b.bids, buy_side(), b.best_bid(), b.cross_size());
    lemma_advance(b.asks, sell_side(), b.best_ask(), b.cross_size());
}

/// Once as many steps were allowed as orders rest in the book, allowing more
/// changes nothing.
pub proof fn lemma_enough_steps(b: BookView, n: nat)
    requires
        b.wf(),
        n >= b.order_count(),
    ensures
        b.after(n) == b.settled(),
        b.fills_within(n) == b.fills(),
    decreases n,
{
    if b.crossable() {
        lemma_step(b);
        let rest = (n - 1) as nat;
        let fewest = (b.order_count() - 1) as nat;
        lemma_enough_steps(b.step(), rest);
        lemma_enough_steps(b.step(), fewest);
    }
}

/// Settling a book in which orders cross is one crossing step, which records
/// its trade, and then settling what that step leaves.
pub proof fn lemma_settle_unfolds(b: BookView)
    requires
        b.wf(),
        b.crossable(),
    ensures
        b.step().wf(),
        b.step().order_count() < b.order_count(),
        b.settled() == b.step().settled(),
        b.fills() == seq![b.cross_trade()] + b.step().fills(),
{
    lemma_step(b);
    lemma_enough_steps(b.step(), (b.order_count() - 1) as nat);
}

/// A book in which no orders cross is settled as it stands.
pub proof fn lemma_settle_at_rest(b: BookView)
    requires
        !b.crossable(),
    ensures
        b.settled() == b,
        b.fills() == Seq::<Trade>::empty(),
{
}

} // verus!

//! The order book: insertion, matching and inspection.

use crate::levels::{fill_front, front_order, highest_price, join_queue, lowest_price, queues_view};
use crate::model::{
    lemma_best_ask_is, lemma_best_bid_is, lemma_settle_at_rest, lemma_settle_unfolds, BookView,
};
use crate::order::{trades_view, CompletedOrder, Order};
use std::collections::BTreeMap;
use std::collections::VecDeque;
use vstd::prelude::*;

verus! {

/// The resting orders of one instrument: buy orders and sell orders, each
/// side indexed by price, each price level a queue in arrival order.
pub struct OrderBook {
    buy_orders: BTreeMap<u32, VecDeque<Order>>,
    sell_orders: BTreeMap<u32, VecDeque<Order>>,
}

impl View for OrderBook {
    type V = BookView;

    closed spec fn view(&self) -> BookView {
        BookView {
            bids: queues_view(self.buy_orders@),
            asks: queues_view(self.sell_orders@),
        }
    }
}

impl OrderBook {
    /// The book's invariant: no price level is empty, and each order rests on
    /// its own side at its own price.
    pub open spec fn wf(&self) -> bool {
        self@.wf()
    }

    /// A book in which no order rests.
    pub fn new() -> (book: OrderBook)
        ensures
            book.wf(),
            book@ == BookView::empty(),
    {
        let book = OrderBook { buy_orders: BTreeMap::new(), sell_orders: BTreeMap::new() };
        proof {
            assert(book@.bids =~= Map::empty());
            assert(book@.asks =~= Map::empty());
        }
        book
    }

    /// Submits `order`: a `"buy"` order joins the tail of the bid queue at
    /// its price, a `"sell"` order the tail of the ask queue at its price.
    /// An order of any other side is discarded. Nothing is matched.
    pub fn add_order(&mut self, order: Order)
        requires
            old(self).wf(),
        ensures
            final(self).wf(),
            final(self)@ == old(self)@.with_order(order@),
    {
        let buy = "buy".to_owned();
        let sell = "sell".to_owned();
        if order.order_type == buy {
            join_queue(&mut self.buy_orders, order);
        } else if order.order_type == sell {
            join_queue(&mut self.sell_orders, order);
        }
    }

    /// Settles every cross in the book. While the highest bid is at or above
    /// the lowest ask, the oldest order at each of the two prices trade the
    /// smaller of their sizes at the ask price; the trade is appended to
    /// `matched_orders`, and an order of which nothing is left leaves the
    /// book.
    pub fn match_orders(&mut self, matched_orders: &mut Vec<CompletedOrder>)
        requires
            old(self).wf(),
        ensures
            final(self).wf(),
            final(self)@ == old(self)@.settled(),
            trades_view(final(matched_orders)@) == trades_view(old(matched_orders)@) + old(
                self,
            )@.fills(),
            !final(self)@.crossable(),
    {
        let ghost start = self@;
        let ghost recorded = trades_view(matched_orders@);
        loop
            invariant
                self.wf(),
                self@.settled() == start.settled(),
                trades_view(matched_orders@) + self@.fills() == recorded + start.fills(),
            ensures
                !self@.crossable(),
            decreases self@.order_count(),
        {
            let ghost book = self@;
            let ghost emitted = trades_view(matched_orders@);
            match (highest_price(&self.buy_orders), lowest_price(&self.sell_orders)) {
                (Some(buy_price), Some(sell_price)) => {
                    proof {
                        assert(book.bids.dom() =~= self.buy_orders@.dom());
                        assert(book.asks.dom() =~= self.sell_orders@.dom());
                        lemma_best_bid_is(book, buy_price);
                        lemma_best_ask_is(book, sell_price);
                    }
                    if buy_price >= sell_price {
                        proof {
                            lemma_settle_unfolds(book);
                        }
                        let buy_order = front_order(&self.buy_orders, buy_price).unwrap();
                        let sell_order = front_order(&self.sell_orders, sell_price).unwrap();
                        let trade_size: u32 = if buy_order.size <= sell_order.size {
                            buy_order.size
                        } else {
                            sell_order.size
                        };
                        let trade = CompletedOrder {
                            sid: sell_order.id.clone(),
                            bid: buy_order.id.clone(),
                            size: trade_size,
                            price: sell_price,
                        };
                        assert(trade@ == book.cross_trade());
                        matched_orders.push(trade);
                        fill_front(&mut self.buy_orders, buy_price, trade_size);
                        fill_front(&mut self.sell_orders, sell_price, trade_size);
                        proof {
                            assert(self@ == book.step());
                            assert(trades_view(matched_orders@) =~= emitted.push(
                                book.cross_trade(),
                            ));
                            assert(trades_view(matched_orders@) + self@.fills() =~= emitted
                                + book.fills());
                        }
                    } else {
                        proof {
                            lemma_settle_at_rest(book);
                        }
                        break ;
                    }
                },
                _ => {
                    proof {
                        assert(book.bids.dom() =~= self.buy_orders@.dom());
                        assert(book.asks.dom() =~= self.sell_orders@.dom());
                        lemma_settle_at_rest(book);
                    }
                    break ;
                },
            }
        }
        proof {
            lemma_settle_at_rest(self@);
        }
    }

    /// The oldest order resting at `price` among the bids where `is_buy`
    /// holds, else among the asks; `None` where no order rests there.
    pub fn get_front_order(&self, is_buy: bool, price: u32) -> (front: Option<&Order>)
        requires
            self.wf(),
        ensures
            match front {
                Some(o) => self@.side(is_buy).contains_key(price) && o@ == self@.side(
                    is_buy,
                )[price][0],
                None => !self@.side(is_buy).contains_key(price),
            },
    {
        if is_buy {
            front_order(&self.buy_orders, price)
        } else {
            front_order(&self.sell_orders, price)
        }
    }

    /// The number of prices at which buy orders rest.
    pub fn buy_levels(&self) -> (n: usize)
        ensures
            n == self@.bids.dom().len(),
    {
        proof {
            assert(self@.bids.dom() =~= self.buy_orders@.dom());
        }
        self.buy_orders.len()
    }

    /// The number of prices at which sell orders rest.
    pub fn sell_levels(&self) -> (n: usize)
        ensures
            n == self@.asks.dom().len(),
    {
        proof {
            assert(self@.asks.dom() =~= self.sell_orders@.dom());
        }
        self.sell_orders.len()
    }
}

} // verus!

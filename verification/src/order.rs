//! The values that enter and leave the book: orders and trade records.

use vstd::prelude::*;

verus! {

/// An instruction to buy or sell `size` units at `price`.
///
/// `order_type` is `"buy"` or `"sell"`; an order with any other side never
/// enters a book.
#[derive(Debug, Clone)]
pub struct Order {
    pub id: String,
    pub order_type: String,
    pub price: u32,
    pub size: u32,
}

/// The mathematical value of an `Order`.
pub struct OrderView {
    pub id: Seq<char>,
    pub order_type: Seq<char>,
    pub price: u32,
    pub size: nat,
}

impl View for Order {
    type V = OrderView;

    open spec fn view(&self) -> OrderView {
        OrderView {
            id: self.id@,
            order_type: self.order_type@,
            price: self.price,
            size: self.size as nat,
        }
    }
}

/// The record of one fill: `size` units went from the seller `sid` to the
/// buyer `bid` at `price`.
#[derive(Debug, Clone)]
pub struct CompletedOrder {
    pub sid: String,
    pub bid: String,
    pub size: u32,
    pub price: u32,
}

/// The mathematical value of a `CompletedOrder`.
pub struct Trade {
    pub sid: Seq<char>,
    pub bid: Seq<char>,
    pub size: nat,
    pub price: u32,
}

impl View for CompletedOrder {
    type V = Trade;

    open spec fn view(&self) -> Trade {
        Trade { sid: self.sid@, bid: self.bid@, size: self.size as nat, price: self.price }
    }
}

/// The side of an order that buys.
pub open spec fn buy_side() -> Seq<char> {
    "buy"@
}

/// The side of an order that sells.
pub open spec fn sell_side() -> Seq<char> {
    "sell"@
}

/// The values of a sequence of orders, in the same order.
pub open spec fn orders_view(orders: Seq<Order>) -> Seq<OrderView> {
    orders.map_values(|o: Order| o@)
}

/// The values of a sequence of trade records, in the same order.
pub open spec fn trades_view(trades: Seq<CompletedOrder>) -> Seq<Trade> {
    trades.map_values(|t: CompletedOrder| t@)
}

} // verus!

//! A price-time-priority order-matching core.
//!
//! Orders rest in an `OrderBook` until `OrderBook::match_orders` settles every
//! pair of crossing orders into trade records. The behaviour of the book is
//! stated over the mathematical model in `model`, and the `laws` module proves
//! price priority, time priority and conservation of size from it.

pub mod book;
pub mod laws;
mod levels;
pub mod model;
pub mod order;

use matching_engine::book::OrderBook;
use matching_engine::order::{CompletedOrder, Order};

fn order(id: &str, side: &str, price: u32, size: u32) -> Order {
    Order { id: id.to_string(), order_type: side.to_string(), price, size }
}

#[test]
fn test_partial_fill() {
    let mut order_book = OrderBook::new();
    let mut matched_orders: Vec<CompletedOrder> = Vec::new();

    // Add orders
    order_book.add_order(Order { id: "Bob".to_string(), order_type: "sell".to_string(), price: 20, size: 100 });
    order_book.add_order(Order { id: "Sue".to_string(), order_type: "buy".to_string(), price: 20, size: 50 });

    // Match orders
    order_book.match_orders(&mut matched_orders);

    // Check if the match is as expected
    assert_eq!(matched_orders.len(), 1);
    assert_eq!(matched_orders[0].sid, "Bob");
    assert_eq!(matched_orders[0].bid, "Sue");
    assert_eq!(matched_orders[0].size, 50);
    assert_eq!(matched_orders[0].price, 20);

    // Check remaining orders in the book
    assert_eq!(order_book.sell_levels(), 1);

    let remaining_order = order_book.get_front_order(false, 20).unwrap(); // false for sell order
    assert_eq!(remaining_order.id, "Bob");
    assert_eq!(remaining_order.size, 50);
}

#[test]
fn test_multiple_partial_fills() {
    let mut order_book = OrderBook::new();
    let mut matched_orders: Vec<CompletedOrder> = Vec::new();

    // Add orders
    order_book.add_order(Order { id: "Bob".to_string(), order_type: "buy".to_string(), price: 20, size: 100 });
    order_book.add_order(Order { id: "Sue".to_string(), order_type: "sell".to_string(), price: 20, size: 50 });
    order_book.add_order(Order { id: "Tim".to_string(), order_type: "sell".to_string(), price: 20, size: 50 });

    // Match orders
    order_book.match_orders(&mut matched_orders);

    // Check matches
    assert_eq!(matched_orders.len(), 2);
    assert_eq!(matched_orders[0].bid, "Bob");
    assert_eq!(matched_orders[0].sid, "Sue");
    assert_eq!(matched_orders[0].size, 50);
    assert_eq!(matched_orders[1].bid, "Bob");
    assert_eq!(matched_orders[1].sid, "Tim");
    assert_eq!(matched_orders[1].size, 50);

    // Check remaining orders in the book
    assert!(order_book.buy_levels() == 0);
    assert!(order_book.sell_levels() == 0);
}

#[test]
fn test_different_price_points_no_fill() {
    let mut order_book = OrderBook::new();
    let mut matched_orders: Vec<CompletedOrder> = Vec::new();

    // Add orders
    order_book.add_order(Order { id: "Bob".to_string(), order_type: "buy".to_string(), price: 20, size: 100 });
    order_book.add_order(Order { id: "Sue".to_string(), order_type: "sell".to_string(), price: 21, size: 100 });

    // Match orders
    order_book.match_orders(&mut matched_orders);

    // Check no match occurred
    assert!(matched_orders.is_empty());

    // Check remaining orders in the book
    let remaining_buy_order = order_book.get_front_order(true, 20).unwrap(); // true for buy order
    let remaining_sell_order = order_book.get_front_order(false, 21).unwrap(); // false for sell order

    assert_eq!(remaining_buy_order.id, "Bob");
    assert_eq!(remaining_buy_order.size, 100);
    assert_eq!(remaining_sell_order.id, "Sue");
    assert_eq!(remaining_sell_order.size, 100);
}

#[test]
fn test_different_price_points_fill() {
    let mut order_book = OrderBook::new();
    let mut matched_orders: Vec<CompletedOrder> = Vec::new();

    // Add orders
    order_book.add_order(Order { id: "Bob".to_string(), order_type: "buy".to_string(), price: 20, size: 100 });
    order_book.add_order(Order { id: "Sue".to_string(), order_type: "sell".to_string(), price: 21, size: 100 });
    order_book.add_order(Order { id: "Tim".to_string(), order_type: "buy".to_string(), price: 21, size: 100 });

    // Match orders
    order_book.match_orders(&mut matched_orders);

    // Check if the match is as expected
    assert_eq!(matched_orders.len(), 1);
    assert_eq!(matched_orders[0].sid, "Sue");
    assert_eq!(matched_orders[0].bid, "Tim");
    assert_eq!(matched_orders[0].size, 100);
    assert_eq!(matched_orders[0].price, 21);

    // Check remaining orders in the book
    assert_eq!(order_book.buy_levels(), 1);
    let remaining_buy_order = order_book.get_front_order(true, 20).unwrap(); // true for buy order
    assert_eq!(remaining_buy_order.id, "Bob");
    assert_eq!(remaining_buy_order.size, 100);
    assert!(order_book.sell_levels() == 0);
}

#[test]
fn test_priority_queue_at_price_level() {
    let mut order_book = OrderBook::new();
    let mut matched_orders: Vec<CompletedOrder> = Vec::new();

    // Add orders
    order_book.add_order(Order { id: "Bob".to_string(), order_type: "buy".to_string(), price: 20, size: 100 });
    order_book.add_order(Order { id: "Tim".to_string(), order_type: "buy".to_string(), price: 20, size: 100 });
    order_book.add_order(Order { id: "Sue".to_string(), order_type: "sell".to_string(), price: 20, size: 100 });

    // Match orders
    order_book.match_orders(&mut matched_orders);

    // Check if the match is as expected
    assert_eq!(matched_orders.len(), 1);
    assert_eq!(matched_orders[0].sid, "Sue");
    assert_eq!(matched_orders[0].bid, "Bob");
    assert_eq!(matched_orders[0].size, 100);
    assert_eq!(matched_orders[0].price, 20);

    // Check remaining orders in the book using the helper function
    let remaining_buy_order = order_book.get_front_order(true, 20).unwrap(); // true for buy order
    assert_eq!(remaining_buy_order.id, "Tim");
    assert_eq!(remaining_buy_order.size, 100);
    assert!(order_book.sell_levels() == 0);
}

#[test]
fn test_priority_queue_with_large_order() {
    let mut order_book = OrderBook::new();
    let mut matched_orders: Vec<CompletedOrder> = Vec::new();

    // Add orders
    order_book.add_order(Order { id: "Bob".to_string(), order_type: "buy".to_string(), price: 20, size: 100 });
    order_book.add_order(Order { id: "Tim".to_string(), order_type: "buy".to_string(), price: 20, size: 100 });
    order_book.add_order(Order { id: "Sue".to_string(), order_type: "sell".to_string(), price: 20, size: 300 });

    // Match orders
    order_book.match_orders(&mut matched_orders);

    // Check if the matches are as expected
    assert_eq!(matched_orders.len(), 2);
    assert_eq!(matched_orders[0].sid, "Sue");
    assert_eq!(matched_orders[0].bid, "Bob");
    assert_eq!(matched_orders[0].size, 100);
    assert_eq!(matched_orders[1].sid, "Sue");
    assert_eq!(matched_orders[1].bid, "Tim");
    assert_eq!(matched_orders[1].size, 100);

    // Check remaining orders in the book
    assert!(order_book.buy_levels() == 0);
    let remaining_sell_order = order_book.get_front_order(false, 20).unwrap(); // false for sell order
    assert_eq!(remaining_sell_order.id, "Sue");
    assert_eq!(remaining_sell_order.size, 100);
}

#[test]
fn new_book_is_empty() {
    let order_book = OrderBook::new();
    assert_eq!(order_book.buy_levels(), 0);
    assert_eq!(order_book.sell_levels(), 0);
    assert!(order_book.get_front_order(true, 20).is_none());
    assert!(order_book.get_front_order(false, 20).is_none());
}

#[test]
fn matching_an_empty_book_records_nothing() {
    let mut order_book = OrderBook::new();
    let mut matched_orders: Vec<CompletedOrder> = Vec::new();
    order_book.match_orders(&mut matched_orders);
    assert!(matched_orders.is_empty());
    assert_eq!(order_book.buy_levels(), 0);
    assert_eq!(order_book.sell_levels(), 0);
}

#[test]
fn matching_a_one_sided_book_records_nothing() {
    let mut order_book = OrderBook::new();
    let mut matched_orders: Vec<CompletedOrder> = Vec::new();
    order_book.add_order(order("Bob", "buy", 20, 100));
    order_book.add_order(order("Tim", "buy", 30, 10));
    order_book.match_orders(&mut matched_orders);
    assert!(matched_orders.is_empty());
    assert_eq!(order_book.buy_levels(), 2);
    assert_eq!(order_book.get_front_order(true, 30).unwrap().size, 10);
}

#[test]
fn order_of_unknown_side_is_discarded() {
    let mut order_book = OrderBook::new();
    let mut matched_orders: Vec<CompletedOrder> = Vec::new();
    order_book.add_order(order("Bob", "hold", 20, 100));
    order_book.add_order(order("Tim", "Buy", 20, 100));
    order_book.add_order(order("Ann", "", 20, 100));
    assert_eq!(order_book.buy_levels(), 0);
    assert_eq!(order_book.sell_levels(), 0);
    order_book.add_order(order("Sue", "sell", 20, 100));
    order_book.match_orders(&mut matched_orders);
    assert!(matched_orders.is_empty());
    assert_eq!(order_book.get_front_order(false, 20).unwrap().id, "Sue");
}

#[test]
fn insertion_does_not_match() {
    let mut order_book = OrderBook::new();
    order_book.add_order(order("Bob", "buy", 25, 100));
    order_book.add_order(order("Sue", "sell", 20, 100));
    assert_eq!(order_book.buy_levels(), 1);
    assert_eq!(order_book.sell_levels(), 1);
    assert_eq!(order_book.get_front_order(true, 25).unwrap().size, 100);
    assert_eq!(order_book.get_front_order(false, 20).unwrap().size, 100);
}

#[test]
fn front_order_is_the_oldest_at_its_price() {
    let mut order_book = OrderBook::new();
    order_book.add_order(order("Bob", "sell", 20, 1));
    order_book.add_order(order("Tim", "sell", 20, 2));
    order_book.add_order(order("Sue", "sell", 21, 3));
    let front = order_book.get_front_order(false, 20).unwrap();
    assert_eq!(front.id, "Bob");
    assert_eq!(front.order_type, "sell");
    assert_eq!(front.price, 20);
    assert_eq!(front.size, 1);
    assert_eq!(order_book.get_front_order(false, 21).unwrap().id, "Sue");
    assert!(order_book.get_front_order(false, 22).is_none());
    assert!(order_book.get_front_order(true, 20).is_none());
    assert_eq!(order_book.sell_levels(), 2);
}

#[test]
fn trade_is_recorded_at_the_ask_price() {
    let mut order_book = OrderBook::new();
    let mut matched_orders: Vec<CompletedOrder> = Vec::new();
    order_book.add_order(order("Bob", "buy", 25, 10));
    order_book.add_order(order("Sue", "sell", 20, 10));
    order_book.match_orders(&mut matched_orders);
    assert_eq!(matched_orders.len(), 1);
    assert_eq!(matched_orders[0].price, 20);
    assert_eq!(matched_orders[0].size, 10);
    assert_eq!(matched_orders[0].bid, "Bob");
    assert_eq!(matched_orders[0].sid, "Sue");
}

#[test]
fn higher_bid_is_filled_first() {
    let mut order_book = OrderBook::new();
    let mut matched_orders: Vec<CompletedOrder> = Vec::new();
    order_book.add_order(order("Low", "buy", 20, 100));
    order_book.add_order(order("High", "buy", 22, 100));
    order_book.add_order(order("Mid", "buy", 21, 100));
    order_book.add_order(order("Sue", "sell", 20, 250));
    order_book.match_orders(&mut matched_orders);
    assert_eq!(matched_orders.len(), 3);
    assert_eq!(matched_orders[0].bid, "High");
    assert_eq!(matched_orders[0].size, 100);
    assert_eq!(matched_orders[1].bid, "Mid");
    assert_eq!(matched_orders[1].size, 100);
    assert_eq!(matched_orders[2].bid, "Low");
    assert_eq!(matched_orders[2].size, 50);
    assert_eq!(matched_orders[2].price, 20);
    assert_eq!(order_book.sell_levels(), 0);
    assert_eq!(order_book.buy_levels(), 1);
    let left = order_book.get_front_order(true, 20).unwrap();
    assert_eq!(left.id, "Low");
    assert_eq!(left.size, 50);
}

#[test]
fn lower_ask_is_filled_first() {
    let mut order_book = OrderBook::new();
    let mut matched_orders: Vec<CompletedOrder> = Vec::new();
    order_book.add_order(order("Dear", "sell", 22, 10));
    order_book.add_order(order("Cheap", "sell", 20, 10));
    order_book.add_order(order("Fair", "sell", 21, 10));
    order_book.add_order(order("Bob", "buy", 21, 25));
    order_book.match_orders(&mut matched_orders);
    assert_eq!(matched_orders.len(), 2);
    assert_eq!(matched_orders[0].sid, "Cheap");
    assert_eq!(matched_orders[0].price, 20);
    assert_eq!(matched_orders[1].sid, "Fair");
    assert_eq!(matched_orders[1].price, 21);
    assert_eq!(order_book.sell_levels(), 1);
    assert_eq!(order_book.get_front_order(false, 22).unwrap().size, 10);
    assert_eq!(order_book.get_front_order(true, 21).unwrap().size, 5);
}

#[test]
fn earlier_order_is_filled_before_later_at_one_price() {
    let mut order_book = OrderBook::new();
    let mut matched_orders: Vec<CompletedOrder> = Vec::new();
    order_book.add_order(order("First", "sell", 20, 30));
    order_book.add_order(order("Second", "sell", 20, 30));
    order_book.add_order(order("Third", "sell", 20, 30));
    order_book.add_order(order("Bob", "buy", 20, 40));
    order_book.match_orders(&mut matched_orders);
    assert_eq!(matched_orders.len(), 2);
    assert_eq!(matched_orders[0].sid, "First");
    assert_eq!(matched_orders[0].size, 30);
    assert_eq!(matched_orders[1].sid, "Second");
    assert_eq!(matched_orders[1].size, 10);
    let front = order_book.get_front_order(false, 20).unwrap();
    assert_eq!(front.id, "Second");
    assert_eq!(front.size, 20);
    assert_eq!(order_book.buy_levels(), 0);
}

#[test]
fn fills_never_exceed_an_order() {
    let mut order_book = OrderBook::new();
    let mut matched_orders: Vec<CompletedOrder> = Vec::new();
    order_book.add_order(order("Bob", "buy", 20, 70));
    order_book.add_order(order("A", "sell", 18, 20));
    order_book.add_order(order("B", "sell", 19, 20));
    order_book.add_order(order("C", "sell", 20, 20));
    order_book.add_order(order("D", "sell", 20, 20));
    order_book.match_orders(&mut matched_orders);
    let bought: u32 = matched_orders.iter().filter(|t| t.bid == "Bob").map(|t| t.size).sum();
    assert_eq!(bought, 70);
    assert_eq!(matched_orders.len(), 4);
    assert_eq!(matched_orders[3].sid, "D");
    assert_eq!(matched_orders[3].size, 10);
    let left = order_book.get_front_order(false, 20).unwrap();
    assert_eq!(left.id, "D");
    assert_eq!(left.size, 10);
}

#[test]
fn book_does_not_cross_after_matching() {
    let mut order_book = OrderBook::new();
    let mut matched_orders: Vec<CompletedOrder> = Vec::new();
    order_book.add_order(order("B1", "buy", 18, 10));
    order_book.add_order(order("B2", "buy", 20, 10));
    order_book.add_order(order("B3", "buy", 23, 10));
    order_book.add_order(order("S1", "sell", 19, 15));
    order_book.add_order(order("S2", "sell", 21, 15));
    order_book.add_order(order("S3", "sell", 25, 15));
    order_book.match_orders(&mut matched_orders);
    assert_eq!(matched_orders.len(), 2);
    assert_eq!(matched_orders[0].bid, "B3");
    assert_eq!(matched_orders[0].sid, "S1");
    assert_eq!(matched_orders[0].size, 10);
    assert_eq!(matched_orders[0].price, 19);
    assert_eq!(matched_orders[1].bid, "B2");
    assert_eq!(matched_orders[1].sid, "S1");
    assert_eq!(matched_orders[1].size, 5);
    assert_eq!(matched_orders[1].price, 19);
    // best bid 20 (5 left), best ask 21
    assert_eq!(order_book.get_front_order(true, 20).unwrap().size, 5);
    assert!(order_book.get_front_order(true, 23).is_none());
    assert!(order_book.get_front_order(false, 19).is_none());
    assert_eq!(order_book.get_front_order(false, 21).unwrap().size, 15);
    assert_eq!(order_book.buy_levels(), 2);
    assert_eq!(order_book.sell_levels(), 2);
}

#[test]
fn matching_twice_changes_nothing() {
    let mut order_book = OrderBook::new();
    let mut matched_orders: Vec<CompletedOrder> = Vec::new();
    order_book.add_order(order("Bob", "sell", 20, 100));
    order_book.add_order(order("Sue", "buy", 20, 50));
    order_book.match_orders(&mut matched_orders);
    assert_eq!(matched_orders.len(), 1);
    let mut again: Vec<CompletedOrder> = Vec::new();
    order_book.match_orders(&mut again);
    assert!(again.is_empty());
    assert_eq!(order_book.sell_levels(), 1);
    assert_eq!(order_book.buy_levels(), 0);
    let left = order_book.get_front_order(false, 20).unwrap();
    assert_eq!(left.id, "Bob");
    assert_eq!(left.size, 50);
}

#[test]
fn trades_are_appended_to_earlier_ones() {
    let mut order_book = OrderBook::new();
    let mut matched_orders: Vec<CompletedOrder> = Vec::new();
    order_book.add_order(order("Bob", "sell", 20, 10));
    order_book.add_order(order("Sue", "buy", 20, 10));
    order_book.match_orders(&mut matched_orders);
    order_book.add_order(order("Tim", "sell", 19, 5));
    order_book.add_order(order("Ann", "buy", 21, 5));
    order_book.match_orders(&mut matched_orders);
    assert_eq!(matched_orders.len(), 2);
    assert_eq!(matched_orders[0].sid, "Bob");
    assert_eq!(matched_orders[1].sid, "Tim");
    assert_eq!(matched_orders[1].bid, "Ann");
    assert_eq!(matched_orders[1].price, 19);
}

#[test]
fn order_of_size_zero_trades_nothing_and_leaves() {
    let mut order_book = OrderBook::new();
    let mut matched_orders: Vec<CompletedOrder> = Vec::new();
    order_book.add_order(order("Nil", "buy", 20, 0));
    order_book.add_order(order("Sue", "sell", 20, 10));
    assert_eq!(order_book.get_front_order(true, 20).unwrap().size, 0);
    order_book.match_orders(&mut matched_orders);
    assert_eq!(matched_orders.len(), 1);
    assert_eq!(matched_orders[0].size, 0);
    assert_eq!(order_book.buy_levels(), 0);
    assert_eq!(order_book.get_front_order(false, 20).unwrap().size, 10);
}

#[test]
fn orders_with_one_id_are_kept_apart() {
    let mut order_book = OrderBook::new();
    let mut matched_orders: Vec<CompletedOrder> = Vec::new();
    order_book.add_order(order("Bob", "buy", 20, 10));
    order_book.add_order(order("Bob", "buy", 20, 10));
    order_book.add_order(order("Sue", "sell", 20, 15));
    order_book.match_orders(&mut matched_orders);
    assert_eq!(matched_orders.len(), 2);
    assert_eq!(matched_orders[0].size, 10);
    assert_eq!(matched_orders[1].size, 5);
    assert_eq!(order_book.get_front_order(true, 20).unwrap().size, 5);
}

#[test]
fn extreme_prices_and_sizes_are_handled() {
    let mut order_book = OrderBook::new();
    let mut matched_orders: Vec<CompletedOrder> = Vec::new();
    order_book.add_order(order("Bob", "buy", u32::MAX, u32::MAX));
    order_book.add_order(order("Sue", "sell", 0, u32::MAX));
    order_book.match_orders(&mut matched_orders);
    assert_eq!(matched_orders.len(), 1);
    assert_eq!(matched_orders[0].size, u32::MAX);
    assert_eq!(matched_orders[0].price, 0);
    assert_eq!(order_book.buy_levels(), 0);
    assert_eq!(order_book.sell_levels(), 0);
}

#[test]
fn resting_size_falls_by_twice_the_traded_size() {
    let mut order_book = OrderBook::new();
    let mut matched_orders: Vec<CompletedOrder> = Vec::new();
    order_book.add_order(order("B1", "buy", 30, 40));
    order_book.add_order(order("B2", "buy", 29, 25));
    order_book.add_order(order("S1", "sell", 28, 10));
    order_book.add_order(order("S2", "sell", 29, 45));
    order_book.add_order(order("S3", "sell", 31, 5));
    let before: u32 = 40 + 25 + 10 + 45 + 5;
    order_book.match_orders(&mut matched_orders);
    // B1 takes S1 (10) and 30 of S2; B2 takes the 15 left of S2.
    assert_eq!(matched_orders.len(), 3);
    assert_eq!(matched_orders[0].size, 10);
    assert_eq!(matched_orders[1].size, 30);
    assert_eq!(matched_orders[2].size, 15);
    let traded: u32 = matched_orders.iter().map(|t| t.size).sum();
    assert_eq!(traded, 55);
    assert!(order_book.get_front_order(true, 30).is_none());
    assert!(order_book.get_front_order(false, 28).is_none());
    assert!(order_book.get_front_order(false, 29).is_none());
    let b2 = order_book.get_front_order(true, 29).unwrap().size;
    let s3 = order_book.get_front_order(false, 31).unwrap().size;
    assert_eq!(b2, 10);
    assert_eq!(s3, 5);
    assert_eq!(order_book.buy_levels(), 1);
    assert_eq!(order_book.sell_levels(), 1);
    assert_eq!(b2 + s3 + 2 * traded, before);
}

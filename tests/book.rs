use order_book::{LevelDepth, Order, OrderBook, Quote, Side};

fn order(id: &str, price: i64, quantity: u64, side: Side) -> Order {
    Order {
        identifier: id.to_string(),
        price,
        quantity,
        side,
        status: String::new(),
    }
}

fn ids(orders: &[Order]) -> Vec<String> {
    let mut v: Vec<String> = orders.iter().map(|o| o.identifier.clone()).collect();
    v.sort();
    v
}

// Prices in these tests are in hundredths: 1000 ticks stand for 10.00.

#[test]
fn spread_of_uncrossed_book() {
    let mut book = OrderBook::new();
    book.place(order("b1", 1000, 1, Side::Bid));
    book.place(order("b2", 950, 1, Side::Bid));
    book.place(order("a1", 1050, 1, Side::Ask));
    book.place(order("a2", 1100, 1, Side::Ask));
    // spread 0.50, mid price 10.25 (doubled: 20.50)
    assert_eq!(book.spread(), Some(Quote { spread: 50, mid_x2: 2050 }));
}

#[test]
fn spread_is_none_with_an_empty_side() {
    let mut book = OrderBook::new();
    assert_eq!(book.spread(), None);
    book.place(order("b1", 1000, 1, Side::Bid));
    assert_eq!(book.spread(), None);
    book.clear();
    book.place(order("a1", 1000, 1, Side::Ask));
    assert_eq!(book.spread(), None);
}

#[test]
fn spread_is_negative_while_crossed() {
    let mut book = OrderBook::new();
    book.place(order("b1", 1000, 1, Side::Bid));
    book.place(order("a1", 900, 1, Side::Ask));
    assert_eq!(book.spread(), Some(Quote { spread: -100, mid_x2: 1900 }));
}

#[test]
fn matching_pairs_whole_orders_at_the_midpoint() {
    let mut book = OrderBook::new();
    book.place(order("bid", 1000, 5, Side::Bid));
    book.place(order("ask", 900, 3, Side::Ask));
    let trades = book.run_matching();
    assert_eq!(trades.len(), 1);
    // 9.50, doubled
    assert_eq!(trades[0].price_x2, 1900);
    assert_eq!(trades[0].bid.identifier, "bid");
    assert_eq!(trades[0].ask.identifier, "ask");
    assert_eq!(trades[0].bid.quantity, 5);
    assert_eq!(trades[0].ask.quantity, 3);
    assert!(book.get(&"bid".to_string()).is_none());
    assert!(book.get(&"ask".to_string()).is_none());
    assert!(book.depth(Side::Bid).is_empty());
    assert!(book.depth(Side::Ask).is_empty());
    assert!(book.all_orders().is_empty());
}

#[test]
fn matching_stops_when_the_book_no_longer_crosses() {
    let mut book = OrderBook::new();
    book.place(order("b1", 1000, 1, Side::Bid));
    book.place(order("b2", 980, 1, Side::Bid));
    book.place(order("b3", 900, 1, Side::Bid));
    book.place(order("a1", 950, 1, Side::Ask));
    book.place(order("a2", 970, 1, Side::Ask));
    book.place(order("a3", 990, 1, Side::Ask));
    let trades = book.run_matching();
    let pairs: Vec<(String, String, i128)> = trades
        .iter()
        .map(|t| (t.bid.identifier.clone(), t.ask.identifier.clone(), t.price_x2))
        .collect();
    assert_eq!(
        pairs,
        vec![
            ("b1".to_string(), "a1".to_string(), 1950),
            ("b2".to_string(), "a2".to_string(), 1950),
        ]
    );
    assert_eq!(book.best(Side::Bid), Some(900));
    assert_eq!(book.best(Side::Ask), Some(990));
    assert!(book.run_matching().is_empty());
}

#[test]
fn matching_on_an_uncrossed_book_does_nothing() {
    let mut book = OrderBook::new();
    book.place(order("b1", 900, 1, Side::Bid));
    book.place(order("a1", 1000, 1, Side::Ask));
    assert!(book.run_matching().is_empty());
    assert_eq!(ids(&book.all_orders()), vec!["a1".to_string(), "b1".to_string()]);
}

#[test]
fn matching_follows_arrival_order_within_a_level() {
    let mut book = OrderBook::new();
    book.place(order("first", 1000, 1, Side::Bid));
    book.place(order("second", 1000, 2, Side::Bid));
    book.place(order("third", 1000, 3, Side::Bid));
    book.cancel(&"second".to_string());
    book.place(order("fourth", 1000, 4, Side::Bid));
    book.place(order("a1", 1000, 1, Side::Ask));
    book.place(order("a2", 1000, 1, Side::Ask));
    book.place(order("a3", 1000, 1, Side::Ask));
    let trades = book.run_matching();
    let bids: Vec<String> = trades.iter().map(|t| t.bid.identifier.clone()).collect();
    assert_eq!(bids, vec!["first".to_string(), "third".to_string(), "fourth".to_string()]);
    let asks: Vec<String> = trades.iter().map(|t| t.ask.identifier.clone()).collect();
    assert_eq!(asks, vec!["a1".to_string(), "a2".to_string(), "a3".to_string()]);
    assert_eq!(trades[0].price_x2, 2000);
}

#[test]
fn better_prices_match_before_earlier_arrivals() {
    let mut book = OrderBook::new();
    book.place(order("early", 1000, 1, Side::Ask));
    book.place(order("cheap", 990, 1, Side::Ask));
    book.place(order("bid", 1000, 1, Side::Bid));
    let trades = book.run_matching();
    assert_eq!(trades.len(), 1);
    assert_eq!(trades[0].ask.identifier, "cheap");
    assert_eq!(trades[0].price_x2, 1990);
}

#[test]
fn cancel_twice_is_true_once() {
    let mut book = OrderBook::new();
    book.place(order("x", 1000, 1, Side::Bid));
    assert!(book.cancel(&"x".to_string()));
    assert!(!book.cancel(&"x".to_string()));
    assert!(!book.cancel(&"never".to_string()));
}

#[test]
fn cancel_removes_the_level_when_it_empties() {
    let mut book = OrderBook::new();
    book.place(order("a", 1000, 2, Side::Ask));
    book.place(order("b", 1010, 3, Side::Ask));
    book.place(order("c", 1010, 4, Side::Ask));
    assert!(book.cancel(&"a".to_string()));
    assert_eq!(book.depth(Side::Ask), vec![LevelDepth { price: 1010, total: 7 }]);
    assert!(book.cancel(&"b".to_string()));
    assert_eq!(book.depth(Side::Ask), vec![LevelDepth { price: 1010, total: 4 }]);
    assert!(book.cancel(&"c".to_string()));
    assert!(book.depth(Side::Ask).is_empty());
    assert_eq!(book.best(Side::Ask), None);
}

#[test]
fn place_then_get_returns_the_order_stamped_active() {
    let mut book = OrderBook::new();
    let mut given = order("id-7", 1234, 9, Side::Ask);
    given.status = "pending".to_string();
    let stored = book.place(given.clone());
    assert_eq!(stored.status, "active");
    let found = book.get(&"id-7".to_string()).unwrap();
    assert_eq!(found.identifier, given.identifier);
    assert_eq!(found.price, given.price);
    assert_eq!(found.quantity, given.quantity);
    assert_eq!(found.side, given.side);
    assert_eq!(found.status, "active");
}

#[test]
fn get_of_an_unknown_identifier_is_none() {
    let mut book = OrderBook::new();
    assert!(book.get(&"nope".to_string()).is_none());
    book.place(order("yes", 1, 1, Side::Bid));
    assert!(book.get(&"nope".to_string()).is_none());
}

#[test]
fn placing_an_existing_identifier_replaces_the_order() {
    let mut book = OrderBook::new();
    book.place(order("dup", 1000, 1, Side::Bid));
    book.place(order("dup", 1100, 6, Side::Ask));
    assert!(book.depth(Side::Bid).is_empty());
    assert_eq!(book.depth(Side::Ask), vec![LevelDepth { price: 1100, total: 6 }]);
    let found = book.get(&"dup".to_string()).unwrap();
    assert_eq!(found.price, 1100);
    assert_eq!(found.side, Side::Ask);
    assert_eq!(book.all_orders().len(), 1);
    assert!(book.cancel(&"dup".to_string()));
    assert!(book.all_orders().is_empty());
}

#[test]
fn depth_sums_each_level_best_first() {
    let mut book = OrderBook::new();
    book.place(order("b1", 990, 4, Side::Bid));
    book.place(order("b2", 1000, 2, Side::Bid));
    book.place(order("b3", 1000, 3, Side::Bid));
    book.place(order("a1", 1030, 1, Side::Ask));
    book.place(order("a2", 1020, 5, Side::Ask));
    book.place(order("a3", 1030, 7, Side::Ask));
    assert_eq!(
        book.depth(Side::Bid),
        vec![LevelDepth { price: 1000, total: 5 }, LevelDepth { price: 990, total: 4 }]
    );
    assert_eq!(
        book.depth(Side::Ask),
        vec![LevelDepth { price: 1020, total: 5 }, LevelDepth { price: 1030, total: 8 }]
    );
}

#[test]
fn depth_totals_do_not_overflow() {
    let mut book = OrderBook::new();
    book.place(order("a", 5, u64::MAX, Side::Bid));
    book.place(order("b", 5, u64::MAX, Side::Bid));
    assert_eq!(
        book.depth(Side::Bid),
        vec![LevelDepth { price: 5, total: 2 * (u64::MAX as u128) }]
    );
}

#[test]
fn extreme_prices_keep_exact_spread() {
    let mut book = OrderBook::new();
    book.place(order("b", i64::MIN, 1, Side::Bid));
    book.place(order("a", i64::MAX, 1, Side::Ask));
    assert_eq!(
        book.spread(),
        Some(Quote { spread: (i64::MAX as i128) - (i64::MIN as i128), mid_x2: -1 })
    );
}

#[test]
fn index_and_levels_agree_after_mixed_operations() {
    let mut book = OrderBook::new();
    book.place(order("b1", 1000, 1, Side::Bid));
    book.place(order("b2", 990, 1, Side::Bid));
    book.place(order("a1", 995, 1, Side::Ask));
    book.place(order("a2", 1010, 1, Side::Ask));
    book.place(order("a3", 1020, 1, Side::Ask));
    book.cancel(&"a3".to_string());
    book.run_matching();
    assert_eq!(ids(&book.all_orders()), vec!["a2".to_string(), "b2".to_string()]);
    let level_count: u128 = book
        .depth(Side::Bid)
        .iter()
        .chain(book.depth(Side::Ask).iter())
        .map(|d| d.total)
        .sum();
    assert_eq!(level_count, 2);
    assert!(book.get(&"b2".to_string()).is_some());
    assert!(book.get(&"a2".to_string()).is_some());
}

#[test]
fn active_orders_lists_every_resting_order() {
    let mut book = OrderBook::new();
    book.place(order("x", 1, 1, Side::Bid));
    book.place(order("y", 2, 1, Side::Ask));
    let active = book.active_orders();
    assert_eq!(ids(&active), vec!["x".to_string(), "y".to_string()]);
    assert!(active.iter().all(|o| o.status == "active"));
}

#[test]
fn clear_empties_everything() {
    let mut book = OrderBook::new();
    book.place(order("x", 1, 1, Side::Bid));
    book.place(order("y", 2, 1, Side::Ask));
    book.clear();
    assert!(book.all_orders().is_empty());
    assert!(book.depth(Side::Bid).is_empty());
    assert!(book.depth(Side::Ask).is_empty());
    assert!(book.get(&"x".to_string()).is_none());
    assert_eq!(book.spread(), None);
}

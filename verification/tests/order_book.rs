use hftx::{Order, OrderBook, OrderId, Side};

/// Crossing orders with partial fills: price-time priority.
#[test]
fn crossing_and_partials() {
    let mut ob = OrderBook::new();

    // Two asks at the same price: the first has time priority.
    ob.submit_limit(Order {
        id: OrderId(1),
        symbol: "AAPL".into(),
        side: Side::Ask,
        px_ticks: 100,
        qty: 50,
        ts_ns: 1,
    });
    ob.submit_limit(Order {
        id: OrderId(2),
        symbol: "AAPL".into(),
        side: Side::Ask,
        px_ticks: 100,
        qty: 40,
        ts_ns: 2,
    });

    // The crossing bid fills 50 from order 1, then 20 from order 2.
    let trades = ob.submit_limit(Order {
        id: OrderId(10),
        symbol: "AAPL".into(),
        side: Side::Bid,
        px_ticks: 100,
        qty: 70,
        ts_ns: 3,
    });

    assert_eq!(trades.len(), 2);
    assert_eq!(trades[0].maker, OrderId(1));
    assert_eq!(trades[0].qty, 50);
    assert_eq!(trades[1].maker, OrderId(2));
    assert_eq!(trades[1].qty, 20);

    // Order 2 has 20 left.
    assert_eq!(ob.best_ask(), Some(100));
    assert_eq!(ob.asks.best_level_size(), 1);
}

/// Orders that do not cross rest in the book.
#[test]
fn non_crossing_rests() {
    let mut ob = OrderBook::new();

    ob.submit_limit(Order {
        id: OrderId(1),
        symbol: "AAPL".into(),
        side: Side::Ask,
        px_ticks: 105,
        qty: 10,
        ts_ns: 1,
    });

    // The bid does not cross (104 < 105).
    let trades = ob.submit_limit(Order {
        id: OrderId(2),
        symbol: "AAPL".into(),
        side: Side::Bid,
        px_ticks: 104,
        qty: 10,
        ts_ns: 2,
    });

    assert!(trades.is_empty());
    assert_eq!(ob.best_bid(), Some(104));
    assert_eq!(ob.best_ask(), Some(105));
}

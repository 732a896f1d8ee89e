use hftx::{Order, OrderId, PriceLevels, Side};

#[test]
fn test_new_empty() {
    let bids = PriceLevels::new(Side::Bid);
    assert!(bids.get_price_levels().is_empty());
    let asks = PriceLevels::new(Side::Ask);
    assert!(asks.get_price_levels().is_empty());
}

#[test]
fn test_push_keep_fifo() {
    let mut levels = PriceLevels::new(Side::Bid);

    // Same price, different timestamps (FIFO testing)
    let o1 = Order {
        id: OrderId(1),
        symbol: "NVDA".into(),
        side: Side::Bid,
        px_ticks: 10100,
        qty: 10,
        ts_ns: 1,
    };
    let o2 = Order {
        id: OrderId(2),
        symbol: "NVDA".into(),
        side: Side::Bid,
        px_ticks: 10100,
        qty: 20,
        ts_ns: 2,
    };
    let o3 = Order {
        id: OrderId(3),
        symbol: "NVDA".into(),
        side: Side::Bid,
        px_ticks: 10100,
        qty: 30,
        ts_ns: 3,
    };

    levels.push(o1.clone());
    levels.push(o2.clone());
    levels.push(o3.clone());

    let q = levels.get_price_levels().get(&10100).expect("price level exists");
    let ids: Vec<u128> = q.iter().map(|o| o.id.0).collect();
    assert_eq!(
        ids,
        vec![1, 2, 3],
        "FIFO must be preserved at a single price"
    );
}

#[test]
fn best_level_size_zero_empty() {
    let bids = PriceLevels::new(Side::Bid);
    let asks = PriceLevels::new(Side::Ask);
    assert_eq!(bids.best_level_size(), 0);
    assert_eq!(asks.best_level_size(), 0);
}

#[test]
fn best_level_size_counts_orders() {
    let mut asks = PriceLevels::new(Side::Ask);

    // Lowest best ask is 10200
    asks.push(Order {
        id: OrderId(1),
        symbol: "NVDA".into(),
        side: Side::Ask,
        px_ticks: 10200,
        qty: 10,
        ts_ns: 1,
    });

    // Higher price different time stamp
    asks.push(Order {
        id: OrderId(2),
        symbol: "NVDA".into(),
        side: Side::Ask,
        px_ticks: 10250,
        qty: 20,
        ts_ns: 2,
    });

    // Same idea
    asks.push(Order {
        id: OrderId(3),
        symbol: "NVDA".into(),
        side: Side::Ask,
        px_ticks: 10300,
        qty: 30,
        ts_ns: 3,
    });

    assert_eq!(asks.best_level_size(), 1);

    asks.push(Order {
        id: OrderId(4),
        symbol: "NVDA".into(),
        side: Side::Ask,
        px_ticks: 10200,
        qty: 40,
        ts_ns: 4,
    });

    assert_eq!(asks.best_level_size(), 2);
    assert_eq!(asks.best_price(), Some(10200));
}

#[test]
fn best_level_size_counts_orders_ask() {
    let mut bids = PriceLevels::new(Side::Bid);

    bids.push(Order {
        id: OrderId(1),
        symbol: "NVDA".into(),
        side: Side::Bid,
        px_ticks: 10100,
        qty: 10,
        ts_ns: 1,
    });

    bids.push(Order {
        id: OrderId(2),
        symbol: "NVDA".into(),
        side: Side::Bid,
        px_ticks: 10050,
        qty: 20,
        ts_ns: 2,
    });

    assert_eq!(bids.best_level_size(), 1);

    bids.push(Order {
        id: OrderId(3),
        symbol: "NVDA".into(),
        side: Side::Bid,
        px_ticks: 10100,
        qty: 30,
        ts_ns: 3,
    });

    assert_eq!(bids.best_level_size(), 2);
    assert_eq!(bids.best_price(), Some(10100));
}

#[test]
fn pop_best_empty() {
    let mut bids = PriceLevels::new(Side::Bid);
    assert!(bids.pop_best().is_none());
    let mut asks = PriceLevels::new(Side::Ask);
    assert!(asks.pop_best().is_none());
}

#[test]
fn pop_best_removes_order_fifo_ask() {
    let mut asks = PriceLevels::new(Side::Ask);

    // orders at same price, diff stamps
    asks.push(Order {
        id: OrderId(1),
        symbol: "NVDA".into(),
        side: Side::Ask,
        px_ticks: 10200,
        qty: 10,
        ts_ns: 1,
    });

    asks.push(Order {
        id: OrderId(2),
        symbol: "NVDA".into(),
        side: Side::Ask,
        px_ticks: 10200,
        qty: 20,
        ts_ns: 2,
    });

    // add a worse order
    asks.push(Order {
        id: OrderId(3),
        symbol: "NVDA".into(),
        side: Side::Ask,
        px_ticks: 10300,
        qty: 30,
        ts_ns: 3,
    });

    // First pop
    let o = asks.pop_best().expect("order exists");
    assert_eq!(o.id.0, 1);
    assert_eq!(asks.best_price(), Some(10200));
    assert_eq!(asks.best_level_size(), 1);

    // Second pop, level was cleaned after prev call
    let o = asks.pop_best().expect("second best");
    assert_eq!(o.id.0, 2);
    assert_eq!(asks.best_price(), Some(10300));
    assert_eq!(asks.best_level_size(), 1);
}

#[test]
fn pop_best_removes_order_fifo_bid() {
    let mut bids = PriceLevels::new(Side::Bid);

    // orders at same price, diff stamps
    bids.push(Order {
        id: OrderId(1),
        symbol: "NVDA".into(),
        side: Side::Bid,
        px_ticks: 10200,
        qty: 10,
        ts_ns: 1,
    });

    bids.push(Order {
        id: OrderId(2),
        symbol: "NVDA".into(),
        side: Side::Bid,
        px_ticks: 10200,
        qty: 20,
        ts_ns: 2,
    });

    // add a worse order
    bids.push(Order {
        id: OrderId(3),
        symbol: "NVDA".into(),
        side: Side::Bid,
        px_ticks: 10100,
        qty: 30,
        ts_ns: 3,
    });

    // First pop
    let o = bids.pop_best().expect("order exists");
    assert_eq!(o.id.0, 1);
    assert_eq!(bids.best_price(), Some(10200));
    assert_eq!(bids.best_level_size(), 1);

    // Second pop, level was cleaned after prev call
    let o = bids.pop_best().expect("second best");
    assert_eq!(o.id.0, 2);
    assert_eq!(bids.best_price(), Some(10100));
    assert_eq!(bids.best_level_size(), 1);
}

#[test]
fn cancel_removes_order() {
    let mut bids = PriceLevels::new(Side::Bid);

    let o1 = Order {
        id: OrderId(1),
        symbol: "NVDA".into(),
        side: Side::Bid,
        px_ticks: 10100,
        qty: 10,
        ts_ns: 1,
    };
    let o2 = Order {
        id: OrderId(2),
        symbol: "NVDA".into(),
        side: Side::Bid,
        px_ticks: 10100,
        qty: 20,
        ts_ns: 2,
    };
    let o3 = Order {
        id: OrderId(3),
        symbol: "NVDA".into(),
        side: Side::Bid,
        px_ticks: 10050,
        qty: 30,
        ts_ns: 3,
    };

    bids.push(o1.clone());
    bids.push(o2.clone());
    bids.push(o3.clone());

    assert!(bids.cancel(OrderId(2)));

    let first = bids.pop_best().expect("first order");
    assert_eq!(first.id.0, 1);

    let second = bids.pop_best().expect("second order");
    assert_eq!(second.id.0, 3);

    // empty here
    assert!(bids.pop_best().is_none());
}

#[test]
fn cancel_empty_false() {
    let mut asks = PriceLevels::new(Side::Ask);
    // Empty book, trying to cancel returns false
    assert!(!asks.cancel(OrderId(2)));

    let o1 = Order {
        id: OrderId(1),
        symbol: "NVDA".into(),
        side: Side::Ask,
        px_ticks: 10200,
        qty: 10,
        ts_ns: 1,
    };
    asks.push(o1);
    // you have something and can cancel it? returns true
    assert!(asks.cancel(OrderId(1)));
}

use hftx::{Order, OrderId, Side, Trade};

#[test]
fn test_order_creation() {
    let o = Order {
        id: OrderId(1),
        symbol: "AAPL".to_string(),
        side: Side::Bid,
        px_ticks: 195_430,
        qty: 100,
        ts_ns: 123_456_789,
    };

    let t = Trade {
        maker: OrderId(2),
        taker: o.id,
        symbol: o.symbol.clone(),
        px_ticks: o.px_ticks,
        qty: 100,
        ts_ns: o.ts_ns + 10,
    };

    assert_eq!(o.side, Side::Bid);
    assert_eq!(t.qty, 100);
    assert!(o.px_ticks > 0);
    assert_eq!(t.taker, o.id);
    assert_eq!(t.symbol, o.symbol);
    assert!(t.ts_ns > o.ts_ns);
}

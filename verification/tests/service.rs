use hftx::service::{
    cancel_outcome, check_request, depth_changed, depth_levels, depth_update, heartbeat,
    initial_depth_update, on_client_frame, on_trade_event, order_from_request, parse_order_id,
    parse_side, side_from_word, submit_response, trade_events, AppError, ClientFrame, DepthQuery,
    StreamAction, SubmitOrderRequest, TradeEvent, WebSocketMessage,
};
use hftx::snapshot::{MarketDepth, PriceLevel};
use hftx::{OrderId, Side, Trade};

fn trade(maker: u128, qty: i64) -> Trade {
    Trade {
        maker: OrderId(maker),
        taker: OrderId(100),
        symbol: "AAPL".to_string(),
        px_ticks: 10,
        qty,
        ts_ns: 5,
    }
}

#[test]
fn parse_side_reads_the_four_names() {
    assert_eq!(parse_side("bid"), Ok(Side::Bid));
    assert_eq!(parse_side("buy"), Ok(Side::Bid));
    assert_eq!(parse_side("ask"), Ok(Side::Ask));
    assert_eq!(parse_side("sell"), Ok(Side::Ask));
}

#[test]
fn parse_side_ignores_letter_case() {
    assert_eq!(parse_side("BID"), Ok(Side::Bid));
    assert_eq!(parse_side("Buy"), Ok(Side::Bid));
    assert_eq!(parse_side("aSk"), Ok(Side::Ask));
    assert_eq!(parse_side("SELL"), Ok(Side::Ask));
}

#[test]
fn parse_side_turns_other_text_down() {
    assert_eq!(
        parse_side("hold"),
        Err("Invalid side: hold. Use 'bid' or 'ask'".to_string())
    );
    assert_eq!(parse_side(""), Err("Invalid side: . Use 'bid' or 'ask'".to_string()));
    assert_eq!(
        parse_side(" Bid"),
        Err("Invalid side:  Bid. Use 'bid' or 'ask'".to_string())
    );
}

#[test]
fn side_from_word_takes_lowercase_only() {
    assert_eq!(side_from_word(&"bid".to_string()), Some(Side::Bid));
    assert_eq!(side_from_word(&"sell".to_string()), Some(Side::Ask));
    assert_eq!(side_from_word(&"BID".to_string()), None);
    assert_eq!(side_from_word(&"bids".to_string()), None);
}

#[test]
fn app_errors_map_to_status_and_text() {
    assert_eq!(AppError::SymbolNotFound.status_code(), 404);
    assert_eq!(AppError::OrderNotFound.status_code(), 404);
    assert_eq!(AppError::InvalidOrderId.status_code(), 400);
    assert_eq!(AppError::InvalidQuantity.status_code(), 400);
    assert_eq!(AppError::SymbolNotFound.message(), "Symbol not found");
    assert_eq!(AppError::OrderNotFound.message(), "Order not found");
    assert_eq!(AppError::InvalidOrderId.message(), "Invalid order ID");
    assert_eq!(AppError::InvalidQuantity.message(), "Invalid quantity");
}

#[test]
fn cancel_outcome_tells_the_three_cases_apart() {
    assert_eq!(cancel_outcome(None), Err(AppError::SymbolNotFound));
    assert_eq!(cancel_outcome(Some(false)), Err(AppError::OrderNotFound));
    assert_eq!(cancel_outcome(Some(true)), Ok(()));
}

#[test]
fn depth_levels_defaults_to_ten() {
    assert_eq!(depth_levels(&DepthQuery { levels: None }), 10);
    assert_eq!(depth_levels(&DepthQuery { levels: Some(3) }), 3);
    assert_eq!(depth_levels(&DepthQuery { levels: Some(0) }), 0);
}

#[test]
fn order_from_request_carries_the_request() {
    let request = SubmitOrderRequest { side: Side::Ask, price: 1234, quantity: 56 };
    let order = order_from_request("MSFT", &request, OrderId(9), 777);
    assert_eq!(order.id, OrderId(9));
    assert_eq!(order.symbol, "MSFT");
    assert_eq!(order.side, Side::Ask);
    assert_eq!(order.px_ticks, 1234);
    assert_eq!(order.qty, 56);
    assert_eq!(order.ts_ns, 777);
}

#[test]
fn submit_response_names_the_status() {
    let rested = submit_response(OrderId(4), Vec::new());
    assert_eq!(rested.order_id, 4);
    assert_eq!(rested.status, "rested");
    assert!(rested.trades.is_empty());
    let filled = submit_response(OrderId(5), vec![trade(1, 10), trade(2, 20)]);
    assert_eq!(filled.order_id, 5);
    assert_eq!(filled.status, "filled");
    assert_eq!(filled.trades, vec![trade(1, 10), trade(2, 20)]);
}

#[test]
fn trade_events_announce_each_trade() {
    let trades = vec![trade(1, 10), trade(2, 20)];
    let events = trade_events("AAPL", &trades, 99);
    assert_eq!(events.len(), 2);
    for (event, trade) in events.iter().zip(trades.iter()) {
        assert_eq!(event.symbol, "AAPL");
        assert_eq!(&event.trade, trade);
        assert_eq!(event.timestamp, 99);
    }
    assert!(trade_events("AAPL", &Vec::new(), 1).is_empty());
}

#[test]
fn a_stream_answers_pings_and_stops_on_close() {
    let ping = ClientFrame::Text(Some(WebSocketMessage::Ping { timestamp: 42 }));
    assert!(matches!(
        on_client_frame(ping),
        StreamAction::Send(WebSocketMessage::Pong { timestamp: 42 })
    ));
    let pong = ClientFrame::Text(Some(WebSocketMessage::Pong { timestamp: 42 }));
    assert!(matches!(on_client_frame(pong), StreamAction::Ignore));
    assert!(matches!(on_client_frame(ClientFrame::Text(None)), StreamAction::Ignore));
    assert!(matches!(on_client_frame(ClientFrame::Binary), StreamAction::Ignore));
    assert!(matches!(on_client_frame(ClientFrame::Pong), StreamAction::Ignore));
    match on_client_frame(ClientFrame::Ping(vec![1, 2, 3])) {
        StreamAction::SendPong(data) => assert_eq!(data, vec![1, 2, 3]),
        other => panic!("unexpected action {:?}", other),
    }
    assert!(matches!(on_client_frame(ClientFrame::Close), StreamAction::Stop));
    assert!(matches!(on_client_frame(ClientFrame::Failed), StreamAction::Stop));
    assert!(matches!(on_client_frame(ClientFrame::Ended), StreamAction::Stop));
}

#[test]
fn a_trade_stream_forwards_its_own_symbol_only() {
    let event = TradeEvent { symbol: "AAPL".to_string(), trade: trade(1, 10), timestamp: 3 };
    match on_trade_event(&"AAPL".to_string(), event.clone()) {
        Some(WebSocketMessage::Trade(sent)) => {
            assert_eq!(sent.symbol, "AAPL");
            assert_eq!(sent.trade, trade(1, 10));
            assert_eq!(sent.timestamp, 3);
        }
        other => panic!("unexpected message {:?}", other),
    }
    assert!(on_trade_event(&"TSLA".to_string(), event).is_none());
}

#[test]
fn heartbeat_carries_the_time() {
    assert!(matches!(heartbeat(123), WebSocketMessage::Ping { timestamp: 123 }));
}

#[test]
fn initial_depth_update_takes_the_best_level_of_each_side() {
    let depth = MarketDepth {
        symbol: "AAPL".to_string(),
        bids: vec![
            PriceLevel { price: 99, quantity: 15, orders: 2 },
            PriceLevel { price: 98, quantity: 5, orders: 1 },
        ],
        asks: Vec::new(),
        timestamp: 1,
    };
    let update = initial_depth_update("AAPL", &depth, 50);
    assert_eq!(update.symbol, "AAPL");
    assert_eq!(update.best_bid, Some(99));
    assert_eq!(update.bid_size, 15);
    assert_eq!(update.best_ask, None);
    assert_eq!(update.ask_size, 0);
    assert_eq!(update.timestamp, 50);
}

#[test]
fn depth_changes_when_a_best_price_does() {
    assert!(!depth_changed((None, None), (None, None)));
    assert!(!depth_changed((Some(1), Some(2)), (Some(1), Some(2))));
    assert!(depth_changed((Some(1), Some(2)), (Some(1), Some(3))));
    assert!(depth_changed((Some(1), Some(2)), (None, Some(2))));
    assert!(depth_changed((None, None), (Some(0), None)));
}

#[test]
fn depth_update_reports_prices_and_volumes() {
    let update = depth_update("NVDA", (Some(10), None), Some((3, 4)), 8);
    assert_eq!(update.symbol, "NVDA");
    assert_eq!(update.best_bid, Some(10));
    assert_eq!(update.best_ask, None);
    assert_eq!((update.bid_size, update.ask_size), (3, 4));
    assert_eq!(update.timestamp, 8);
    let gone = depth_update("NVDA", (None, None), None, 9);
    assert_eq!((gone.bid_size, gone.ask_size), (0, 0));
}

#[test]
fn parse_order_id_reads_decimal_numbers() {
    assert_eq!(parse_order_id("0"), Ok(OrderId(0)));
    assert_eq!(parse_order_id("42"), Ok(OrderId(42)));
    assert_eq!(parse_order_id("+42"), Ok(OrderId(42)));
    assert_eq!(parse_order_id("007"), Ok(OrderId(7)));
    assert_eq!(
        parse_order_id("340282366920938463463374607431768211455"),
        Ok(OrderId(u128::MAX))
    );
}

#[test]
fn parse_order_id_turns_other_text_down() {
    for text in [
        "",
        "+",
        "-1",
        "-0",
        "++1",
        "1+",
        " 1",
        "1 ",
        "1_000",
        "0x10",
        "12a",
        "\u{ff11}\u{ff12}",
        "1.0",
        "340282366920938463463374607431768211456",
        "9999999999999999999999999999999999999999999",
    ] {
        assert_eq!(parse_order_id(text), Err(AppError::InvalidOrderId), "{:?}", text);
    }
}

#[test]
fn check_request_asks_for_quantity() {
    let request = |quantity| SubmitOrderRequest { side: Side::Bid, price: 10, quantity };
    assert_eq!(check_request(&request(1)), Ok(()));
    assert_eq!(check_request(&request(i64::MAX)), Ok(()));
    assert_eq!(check_request(&request(0)), Err(AppError::InvalidQuantity));
    assert_eq!(check_request(&request(-1)), Err(AppError::InvalidQuantity));
    assert_eq!(check_request(&request(i64::MIN)), Err(AppError::InvalidQuantity));
}

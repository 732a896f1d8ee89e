use hftx::exchange::{
    cancel_order, default_symbols, get_best_prices, get_market_depth, get_orderbook_state,
    get_total_volume,
};
use hftx::types::create_order;
use hftx::{Order, OrderBook, OrderId, Side, Trade};

fn ask(id: u128, px: i64, qty: i64, ts: u128) -> Order {
    create_order(id, "AAPL", Side::Ask, px, qty, ts)
}

fn bid(id: u128, px: i64, qty: i64, ts: u128) -> Order {
    create_order(id, "AAPL", Side::Bid, px, qty, ts)
}

fn resting(book: &OrderBook) -> i64 {
    let mut total = 0;
    for side in [&book.bids, &book.asks] {
        for queue in side.get_price_levels().values() {
            for order in queue.iter() {
                total += order.qty;
            }
        }
    }
    total
}

fn traded(trades: &[Trade]) -> i64 {
    trades.iter().map(|t| t.qty).sum()
}

#[test]
fn scenario_two_asks_one_crossing_bid() {
    let mut ob = OrderBook::new();
    assert!(ob.submit_limit(ask(1, 100, 50, 1)).is_empty());
    assert!(ob.submit_limit(ask(2, 100, 40, 2)).is_empty());
    let trades = ob.submit_limit(bid(10, 100, 70, 3));
    assert_eq!(trades.len(), 2);
    assert_eq!(
        trades[0],
        Trade {
            maker: OrderId(1),
            taker: OrderId(10),
            symbol: "AAPL".to_string(),
            px_ticks: 100,
            qty: 50,
            ts_ns: 3
        }
    );
    assert_eq!(
        trades[1],
        Trade {
            maker: OrderId(2),
            taker: OrderId(10),
            symbol: "AAPL".to_string(),
            px_ticks: 100,
            qty: 20,
            ts_ns: 3
        }
    );
    assert_eq!(ob.best_ask(), Some(100));
    assert_eq!(ob.best_bid(), None);
    assert_eq!(ob.asks.best_level_size(), 1);
    let left = ob.asks.pop_best().expect("the second ask rests");
    assert_eq!(left.id, OrderId(2));
    assert_eq!(left.qty, 20);
}

#[test]
fn scenario_no_cross_rests_both() {
    let mut ob = OrderBook::new();
    assert!(ob.submit_limit(ask(1, 105, 10, 1)).is_empty());
    assert!(ob.submit_limit(bid(2, 104, 10, 2)).is_empty());
    assert_eq!(ob.best_bid(), Some(104));
    assert_eq!(ob.best_ask(), Some(105));
    assert_eq!(get_total_volume(&ob), (1, 1));
}

#[test]
fn scenario_canceled_bid_is_passed_over() {
    let mut ob = OrderBook::new();
    ob.submit_limit(bid(1, 100, 10, 1));
    ob.submit_limit(bid(2, 100, 10, 2));
    assert!(cancel_order(&mut ob, OrderId(1)));
    let trades = ob.submit_limit(ask(3, 100, 10, 3));
    assert_eq!(trades.len(), 1);
    assert_eq!(trades[0].maker, OrderId(2));
    assert_eq!(trades[0].taker, OrderId(3));
    assert_eq!(trades[0].qty, 10);
    assert_eq!(trades[0].px_ticks, 100);
    assert_eq!(ob.best_bid(), None);
    assert_eq!(ob.best_ask(), None);
    assert!(ob.bids.get_price_levels().is_empty());
}

#[test]
fn scenario_two_symbols_never_meet() {
    let mut aapl = OrderBook::new();
    let mut tsla = OrderBook::new();
    let mut aapl_alone = OrderBook::new();
    let mut tsla_alone = OrderBook::new();
    let mut aapl_orders = Vec::new();
    let mut tsla_orders = Vec::new();
    let mut seed: u64 = 0x9E37_79B9_7F4A_7C15;
    let mut next = || {
        seed ^= seed << 13;
        seed ^= seed >> 7;
        seed ^= seed << 17;
        seed
    };
    for i in 0..10_000u128 {
        for symbol in ["AAPL", "TSLA"] {
            let r = next();
            let side = if r & 1 == 0 { Side::Bid } else { Side::Ask };
            let px = 1_000 + ((r >> 1) % 41) as i64 - 20;
            let qty = 1 + ((r >> 8) % 100) as i64;
            let id = if symbol == "AAPL" { 2 * i } else { 2 * i + 1 };
            let order = create_order(id, symbol, side, px, qty, i);
            if symbol == "AAPL" {
                aapl_orders.push(order.clone());
                for trade in aapl.submit_limit(order) {
                    assert_eq!(trade.symbol, "AAPL");
                    assert_eq!(trade.maker.0 % 2, 0);
                    assert_eq!(trade.taker.0 % 2, 0);
                }
            } else {
                tsla_orders.push(order.clone());
                for trade in tsla.submit_limit(order) {
                    assert_eq!(trade.symbol, "TSLA");
                    assert_eq!(trade.maker.0 % 2, 1);
                    assert_eq!(trade.taker.0 % 2, 1);
                }
            }
        }
    }
    for order in aapl_orders {
        aapl_alone.submit_limit(order);
    }
    for order in tsla_orders {
        tsla_alone.submit_limit(order);
    }
    assert_eq!(get_best_prices(&aapl), get_best_prices(&aapl_alone));
    assert_eq!(get_best_prices(&tsla), get_best_prices(&tsla_alone));
    assert_eq!(get_total_volume(&aapl), get_total_volume(&aapl_alone));
    assert_eq!(get_total_volume(&tsla), get_total_volume(&tsla_alone));
}

#[test]
fn trades_execute_at_the_makers_price() {
    let mut ob = OrderBook::new();
    ob.submit_limit(ask(1, 100, 10, 1));
    ob.submit_limit(ask(2, 101, 10, 2));
    ob.submit_limit(ask(3, 103, 10, 3));
    let trades = ob.submit_limit(bid(9, 102, 25, 4));
    let seen: Vec<(u128, i64, i64)> =
        trades.iter().map(|t| (t.maker.0, t.px_ticks, t.qty)).collect();
    assert_eq!(seen, vec![(1, 100, 10), (2, 101, 10)]);
    assert_eq!(ob.best_bid(), Some(102));
    assert_eq!(ob.best_ask(), Some(103));
    let rest = ob.bids.pop_best().expect("the bid rests");
    assert_eq!((rest.id.0, rest.qty), (9, 5));
}

#[test]
fn an_ask_matches_the_highest_bids_first() {
    let mut ob = OrderBook::new();
    ob.submit_limit(bid(1, 100, 10, 1));
    ob.submit_limit(bid(2, 102, 10, 2));
    ob.submit_limit(bid(3, 101, 10, 3));
    ob.submit_limit(bid(4, 102, 10, 4));
    let trades = ob.submit_limit(ask(9, 101, 100, 5));
    let seen: Vec<(u128, i64, i64)> =
        trades.iter().map(|t| (t.maker.0, t.px_ticks, t.qty)).collect();
    assert_eq!(seen, vec![(2, 102, 10), (4, 102, 10), (3, 101, 10)]);
    assert_eq!(ob.best_bid(), Some(100));
    assert_eq!(ob.best_ask(), Some(101));
    let rest = ob.asks.pop_best().expect("the ask rests");
    assert_eq!((rest.id.0, rest.qty), (9, 70));
}

#[test]
fn a_partly_filled_maker_keeps_its_place() {
    let mut ob = OrderBook::new();
    ob.submit_limit(ask(1, 100, 50, 1));
    ob.submit_limit(ask(2, 100, 40, 2));
    let first = ob.submit_limit(bid(10, 100, 30, 3));
    assert_eq!(first.len(), 1);
    assert_eq!((first[0].maker.0, first[0].qty), (1, 30));
    ob.submit_limit(ask(3, 100, 5, 4));
    let second = ob.submit_limit(bid(11, 100, 65, 5));
    let seen: Vec<(u128, i64)> = second.iter().map(|t| (t.maker.0, t.qty)).collect();
    assert_eq!(seen, vec![(1, 20), (2, 40), (3, 5)]);
    assert_eq!(ob.best_ask(), None);
    assert_eq!(ob.best_bid(), None);
}

#[test]
fn each_fill_is_the_smaller_open_quantity_and_fills_never_exceed_the_order() {
    let mut ob = OrderBook::new();
    let makers = [7i64, 3, 12, 1, 9];
    for (i, qty) in makers.iter().enumerate() {
        ob.submit_limit(ask(i as u128, 100 + i as i64, *qty, i as u128));
    }
    let trades = ob.submit_limit(bid(99, 200, 25, 9));
    let mut open = 25i64;
    for (i, trade) in trades.iter().enumerate() {
        assert_eq!(trade.maker.0, i as u128);
        assert_eq!(trade.qty, open.min(makers[i]));
        open -= trade.qty;
    }
    assert_eq!(trades.len(), 5);
    assert_eq!(open, 0);
    assert_eq!(traded(&trades), 25);
    assert_eq!(ob.best_bid(), None);
    let left = ob.asks.pop_best().expect("the last maker rests");
    assert_eq!((left.id.0, left.qty), (4, 7));
}

#[test]
fn quantity_is_conserved() {
    let mut ob = OrderBook::new();
    let mut submitted = 0i64;
    let mut all_traded = 0i64;
    let mut seed: u64 = 12345;
    for i in 0..2_000u128 {
        seed = seed.wrapping_mul(6364136223846793005).wrapping_add(1442695040888963407);
        let side = if (seed >> 33) & 1 == 0 { Side::Bid } else { Side::Ask };
        let px = 100 + ((seed >> 34) % 11) as i64;
        let qty = 1 + ((seed >> 40) % 50) as i64;
        submitted += qty;
        let trades = ob.submit_limit(create_order(i, "AAPL", side, px, qty, i));
        for trade in trades.iter() {
            match side {
                Side::Bid => assert!(trade.px_ticks <= px),
                Side::Ask => assert!(trade.px_ticks >= px),
            }
        }
        all_traded += traded(&trades);
        assert_eq!(resting(&ob) + 2 * all_traded, submitted);
    }
    assert!(all_traded > 0);
}

#[test]
fn quantity_is_conserved_with_cancellations() {
    let mut ob = OrderBook::new();
    ob.submit_limit(ask(1, 100, 10, 1));
    ob.submit_limit(ask(2, 100, 20, 2));
    ob.submit_limit(ask(3, 101, 30, 3));
    assert!(cancel_order(&mut ob, OrderId(1)));
    assert!(cancel_order(&mut ob, OrderId(2)));
    assert_eq!(resting(&ob), 60);
    let trades = ob.submit_limit(bid(9, 101, 25, 4));
    assert_eq!(traded(&trades), 25);
    let purged = 30;
    assert_eq!(resting(&ob) + 2 * traded(&trades) + purged, 60 + 25);
}

#[test]
fn a_canceled_head_does_not_let_a_bid_pay_more_than_its_limit() {
    let mut ob = OrderBook::new();
    ob.submit_limit(ask(1, 100, 5, 1));
    ob.submit_limit(ask(2, 110, 5, 2));
    assert!(cancel_order(&mut ob, OrderId(1)));
    let trades = ob.submit_limit(bid(3, 105, 5, 3));
    assert!(trades.is_empty());
    assert_eq!(ob.best_bid(), Some(105));
    assert_eq!(ob.best_ask(), Some(110));
    assert_eq!(get_total_volume(&ob), (1, 1));
    assert_eq!(resting(&ob), 10);
    let rest = ob.bids.pop_best().expect("the bid rests");
    assert_eq!((rest.id.0, rest.px_ticks, rest.qty), (3, 105, 5));
    let kept = ob.asks.pop_best().expect("the ask at 110 rests");
    assert_eq!((kept.id.0, kept.px_ticks, kept.qty), (2, 110, 5));
}

#[test]
fn a_canceled_head_does_not_let_an_ask_take_less_than_its_limit() {
    let mut ob = OrderBook::new();
    ob.submit_limit(bid(1, 100, 5, 1));
    ob.submit_limit(bid(2, 90, 5, 2));
    ob.submit_limit(bid(4, 90, 7, 3));
    assert!(cancel_order(&mut ob, OrderId(1)));
    let trades = ob.submit_limit(ask(3, 95, 5, 4));
    assert!(trades.is_empty());
    assert_eq!(ob.best_ask(), Some(95));
    assert_eq!(ob.best_bid(), Some(90));
    assert_eq!(ob.bids.best_level_size(), 2);
    let first = ob.bids.pop_best().expect("the first bid at 90 rests");
    assert_eq!((first.id.0, first.qty), (2, 5));
    let second = ob.bids.pop_best().expect("the second bid at 90 rests");
    assert_eq!((second.id.0, second.qty), (4, 7));
}

#[test]
fn a_canceled_head_is_passed_over_for_a_maker_that_crosses() {
    let mut ob = OrderBook::new();
    ob.submit_limit(ask(1, 100, 10, 1));
    ob.submit_limit(ask(2, 105, 10, 2));
    ob.submit_limit(ask(3, 110, 10, 3));
    assert!(cancel_order(&mut ob, OrderId(1)));
    let trades = ob.submit_limit(bid(9, 107, 25, 4));
    assert_eq!(trades.len(), 1);
    assert_eq!(trades[0].maker, OrderId(2));
    assert_eq!(trades[0].px_ticks, 105);
    assert_eq!(trades[0].qty, 10);
    assert_eq!(ob.best_ask(), Some(110));
    assert_eq!(ob.best_bid(), Some(107));
    let rest = ob.bids.pop_best().expect("the bid rests");
    assert_eq!((rest.id.0, rest.qty), (9, 15));
}

#[test]
fn a_maker_that_was_put_back_can_still_be_canceled() {
    let mut ob = OrderBook::new();
    ob.submit_limit(ask(1, 100, 5, 1));
    ob.submit_limit(ask(2, 110, 5, 2));
    assert!(cancel_order(&mut ob, OrderId(1)));
    assert!(ob.submit_limit(bid(3, 105, 5, 3)).is_empty());
    assert!(cancel_order(&mut ob, OrderId(2)));
    assert!(!cancel_order(&mut ob, OrderId(2)));
    assert!(ob.submit_limit(bid(4, 120, 5, 4)).is_empty());
    assert_eq!(ob.best_ask(), None);
}

#[test]
fn an_order_without_quantity_changes_nothing() {
    let mut ob = OrderBook::new();
    ob.submit_limit(ask(1, 100, 10, 1));
    assert!(ob.submit_limit(bid(2, 100, 0, 2)).is_empty());
    assert!(ob.submit_limit(bid(3, 100, -5, 3)).is_empty());
    assert_eq!(ob.best_bid(), None);
    assert_eq!(ob.best_ask(), Some(100));
    assert_eq!(resting(&ob), 10);
}

#[test]
fn a_side_with_canceled_orders_only_is_emptied() {
    let mut ob = OrderBook::new();
    ob.submit_limit(ask(1, 100, 10, 1));
    ob.submit_limit(ask(2, 101, 10, 2));
    assert!(cancel_order(&mut ob, OrderId(1)));
    assert!(cancel_order(&mut ob, OrderId(2)));
    let trades = ob.submit_limit(bid(9, 100, 10, 3));
    assert!(trades.is_empty());
    assert_eq!(ob.best_ask(), None);
    assert_eq!(ob.best_bid(), Some(100));
}

#[test]
fn cancel_order_probes_both_sides() {
    let mut ob = OrderBook::new();
    ob.submit_limit(bid(1, 99, 10, 1));
    ob.submit_limit(ask(2, 101, 10, 2));
    assert!(cancel_order(&mut ob, OrderId(2)));
    assert!(cancel_order(&mut ob, OrderId(1)));
    assert!(!cancel_order(&mut ob, OrderId(1)));
    assert!(!cancel_order(&mut ob, OrderId(2)));
    assert!(!cancel_order(&mut ob, OrderId(3)));
    assert_eq!(get_total_volume(&ob), (0, 0));
    assert_eq!(get_best_prices(&ob), (Some(99), Some(101)));
}

#[test]
fn default_symbols_are_the_five() {
    assert_eq!(default_symbols(), vec!["AAPL", "TSLA", "MSFT", "NVDA", "GOOGL"]);
}

#[test]
fn state_reports_best_prices_and_level_counts() {
    let mut ob = OrderBook::new();
    let empty = get_orderbook_state(&ob, "AAPL", 5);
    assert_eq!(empty.symbol, "AAPL");
    assert_eq!((empty.best_bid, empty.best_ask), (None, None));
    assert_eq!((empty.bid_levels, empty.ask_levels), (0, 0));
    assert_eq!(empty.last_update, 5);
    ob.submit_limit(bid(1, 99, 10, 1));
    ob.submit_limit(bid(2, 98, 10, 2));
    ob.submit_limit(bid(3, 99, 10, 3));
    ob.submit_limit(ask(4, 101, 10, 4));
    let state = get_orderbook_state(&ob, "AAPL", 77);
    assert_eq!((state.best_bid, state.best_ask), (Some(99), Some(101)));
    assert_eq!((state.bid_levels, state.ask_levels), (2, 1));
    assert_eq!(state.last_update, 77);
}

#[test]
fn depth_lists_the_best_levels_that_hold_quantity() {
    let mut ob = OrderBook::new();
    ob.submit_limit(bid(1, 99, 10, 1));
    ob.submit_limit(bid(2, 98, 20, 2));
    ob.submit_limit(bid(3, 99, 5, 3));
    ob.submit_limit(bid(4, 97, 7, 4));
    ob.submit_limit(ask(5, 101, 10, 5));
    ob.submit_limit(ask(6, 102, 20, 6));
    ob.submit_limit(ask(7, 103, 30, 7));
    assert!(cancel_order(&mut ob, OrderId(2)));
    let depth = get_market_depth(&ob, "AAPL", 2, 42);
    assert_eq!(depth.symbol, "AAPL");
    assert_eq!(depth.timestamp, 42);
    let bids: Vec<(i64, i64, usize)> =
        depth.bids.iter().map(|l| (l.price, l.quantity, l.orders)).collect();
    let asks: Vec<(i64, i64, usize)> =
        depth.asks.iter().map(|l| (l.price, l.quantity, l.orders)).collect();
    assert_eq!(bids, vec![(99, 15, 2)]);
    assert_eq!(asks, vec![(101, 10, 1), (102, 20, 1)]);
    let all = get_market_depth(&ob, "AAPL", 10, 43);
    let bids: Vec<(i64, i64, usize)> =
        all.bids.iter().map(|l| (l.price, l.quantity, l.orders)).collect();
    assert_eq!(bids, vec![(99, 15, 2), (97, 7, 1)]);
    assert_eq!(all.asks.len(), 3);
    let none = get_market_depth(&ob, "AAPL", 0, 44);
    assert!(none.bids.is_empty() && none.asks.is_empty());
}

#[test]
fn total_volume_counts_live_orders_of_each_side() {
    let mut ob = OrderBook::new();
    assert_eq!(get_total_volume(&ob), (0, 0));
    ob.submit_limit(bid(1, 99, 10, 1));
    ob.submit_limit(bid(2, 98, 10, 2));
    ob.submit_limit(ask(3, 101, 10, 3));
    assert_eq!(get_total_volume(&ob), (2, 1));
    assert!(cancel_order(&mut ob, OrderId(2)));
    assert_eq!(get_total_volume(&ob), (1, 1));
}

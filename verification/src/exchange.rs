//! What a venue does with the book of one symbol.
//!
//! A venue keeps one book for each symbol that it trades and guards each
//! book on its own. These functions are what it does once it holds a
//! book: the queries under shared access, and the cancellation under
//! exclusive access. Submission is [`OrderBook::submit_limit`] itself.

use crate::model::with_quantity;
use crate::order_book::OrderBook;
use crate::snapshot::{clamp_i64, clamp_usize, MarketDepth, OrderBookState, PriceLevel};
use crate::types::OrderId;
use vstd::prelude::*;

verus! {

/// Returns the symbols that a venue trades from its start: AAPL, TSLA,
/// MSFT, NVDA and GOOGL.
pub fn default_symbols() -> (symbols: Vec<String>)
    ensures
        symbols@.len() == 5,
        symbols@[0]@ == "AAPL"@,
        symbols@[1]@ == "TSLA"@,
        symbols@[2]@ == "MSFT"@,
        symbols@[3]@ == "NVDA"@,
        symbols@[4]@ == "GOOGL"@,
{
    let mut symbols: Vec<String> = Vec::new();
    symbols.push("AAPL".to_owned());
    symbols.push("TSLA".to_owned());
    symbols.push("MSFT".to_owned());
    symbols.push("NVDA".to_owned());
    symbols.push("GOOGL".to_owned());
    symbols
}

/// Returns the state of `book` at the time `now_ns`: the best price of
/// each side and the number of prices at which an order rests on it.
/// Orders marked as canceled count like the others.
pub fn get_orderbook_state(book: &OrderBook, symbol: &str, now_ns: u128) -> (state: OrderBookState)
    requires
        book.wf(),
    ensures
        state.symbol@ == symbol@,
        match state.best_bid {
            Some(px) => book@.bids.best_price() == Some(px as int),
            None => book@.bids.best_price().is_none(),
        },
        match state.best_ask {
            Some(px) => book@.asks.best_price() == Some(px as int),
            None => book@.asks.best_price().is_none(),
        },
        state.bid_levels == book@.bids.ladder().len(),
        state.ask_levels == book@.asks.ladder().len(),
        state.last_update == now_ns,
{
    OrderBookState {
        symbol: symbol.to_owned(),
        best_bid: book.best_bid(),
        best_ask: book.best_ask(),
        bid_levels: book.bids.level_count(),
        ask_levels: book.asks.level_count(),
        last_update: now_ns,
    }
}

/// Keeps the levels that hold quantity, in their order.
fn keep_with_quantity(levels: Vec<PriceLevel>) -> (kept: Vec<PriceLevel>)
    ensures
        kept@ == levels@.filter(with_quantity()),
{
    let mut kept: Vec<PriceLevel> = Vec::new();
    let mut i: usize = 0;
    proof {
        reveal(Seq::filter);
        assert(levels@.take(0) =~= Seq::<PriceLevel>::empty());
    }
    while i < levels.len()
        invariant
            0 <= i <= levels@.len(),
            kept@ == levels@.take(i as int).filter(with_quantity()),
        decreases levels@.len() - i,
    {
        proof {
            reveal(Seq::filter);
            assert(levels@.take(i + 1).drop_last() =~= levels@.take(i as int));
            assert(levels@.take(i + 1).last() == levels@[i as int]);
        }
        if levels[i].quantity > 0 {
            kept.push(
                PriceLevel {
                    price: levels[i].price,
                    quantity: levels[i].quantity,
                    orders: levels[i].orders,
                },
            );
        }
        i = i + 1;
    }
    proof {
        assert(levels@.take(i as int) =~= levels@);
    }
    kept
}

/// Returns the depth of `book` at the time `now_ns`: for each side, those
/// of its `levels` best prices at which live orders hold quantity, best
/// first, each with the total quantity and the number of its live
/// orders. The best bid is the highest, the best ask the lowest.
pub fn get_market_depth(book: &OrderBook, symbol: &str, levels: usize, now_ns: u128) -> (depth:
    MarketDepth)
    requires
        book.wf(),
    ensures
        depth.symbol@ == symbol@,
        depth.bids@ == book@.bids.depth(levels as int),
        depth.asks@ == book@.asks.depth(levels as int),
        depth.timestamp == now_ns,
{
    let bids = keep_with_quantity(book.bids.levels_best_first(levels));
    let asks = keep_with_quantity(book.asks.levels_best_first(levels));
    MarketDepth { symbol: symbol.to_owned(), bids, asks, timestamp: now_ns }
}

/// Marks `order_id` as canceled on both sides of `book`, and says whether
/// this canceled an order on either.
pub fn cancel_order(book: &mut OrderBook, order_id: OrderId) -> (cancelled: bool)
    requires
        old(book).wf(),
    ensures
        final(book).wf(),
        final(book)@ == old(book)@.cancel(order_id.0).after,
        cancelled == old(book)@.cancel(order_id.0).changed,
{
    let from_bids = book.bids.cancel(order_id);
    let from_asks = book.asks.cancel(order_id);
    proof {
        book.bids.lemma_valid_view();
        book.asks.lemma_valid_view();
    }
    from_bids || from_asks
}

/// Returns the best bid and the best ask of `book`.
pub fn get_best_prices(book: &OrderBook) -> (best: (Option<i64>, Option<i64>))
    requires
        book.wf(),
    ensures
        match best.0 {
            Some(px) => book@.bids.best_price() == Some(px as int),
            None => book@.bids.best_price().is_none(),
        },
        match best.1 {
            Some(px) => book@.asks.best_price() == Some(px as int),
            None => book@.asks.best_price().is_none(),
        },
{
    (book.best_bid(), book.best_ask())
}

/// Returns the number of live orders on each side of `book`, bids first.
/// A number beyond the result type is returned as its greatest value.
pub fn get_total_volume(book: &OrderBook) -> (volume: (i64, i64))
    requires
        book.wf(),
    ensures
        volume.0 == clamp_i64(clamp_usize(book@.bids.live().len() as int)),
        volume.1 == clamp_i64(clamp_usize(book@.asks.live().len() as int)),
{
    let bids = book.bids.total_len();
    let asks = book.asks.total_len();
    (count_as_i64(bids), count_as_i64(asks))
}

/// Returns `n` as a signed number, and the greatest one where `n` is
/// beyond it.
fn count_as_i64(n: usize) -> (r: i64)
    ensures
        r == clamp_i64(n as int),
{
    if n as u128 > i64::MAX as u128 {
        i64::MAX
    } else {
        n as i64
    }
}

} // verus!

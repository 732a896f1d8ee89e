//! Read-only pictures of a book, as they are handed to market-data
//! consumers.

use vstd::prelude::*;

verus! {

/// The best prices of one book and how many prices each side holds.
#[derive(Debug)]
pub struct OrderBookState {
    pub symbol: String,
    pub best_bid: Option<i64>,
    pub best_ask: Option<i64>,
    /// Number of prices at which a bid rests.
    pub bid_levels: usize,
    /// Number of prices at which an ask rests.
    pub ask_levels: usize,
    /// When the picture was taken.
    pub last_update: u128,
}

/// The live orders at one price, added up.
#[derive(Debug)]
pub struct PriceLevel {
    pub price: i64,
    /// Total open quantity of the live orders at this price.
    pub quantity: i64,
    /// Number of live orders at this price.
    pub orders: usize,
}

/// The best prices of each side of a book, best first.
#[derive(Debug)]
pub struct MarketDepth {
    pub symbol: String,
    /// Highest price first.
    pub bids: Vec<PriceLevel>,
    /// Lowest price first.
    pub asks: Vec<PriceLevel>,
    /// When the picture was taken.
    pub timestamp: u128,
}

/// `x` where it fits a signed 64-bit integer, else the nearest bound.
pub open spec fn clamp_i64(x: int) -> int {
    if x < i64::MIN {
        i64::MIN as int
    } else if x > i64::MAX {
        i64::MAX as int
    } else {
        x
    }
}

/// `x` where it fits a `usize`, else the greatest `usize`.
pub open spec fn clamp_usize(x: int) -> int {
    if x > usize::MAX {
        usize::MAX as int
    } else {
        x
    }
}

} // verus!

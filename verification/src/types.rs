//! Core data types for the order book.
//!
//! Prices are integer ticks and quantities are integers, so comparisons are
//! exact. Timestamps are nanoseconds since the epoch.

use vstd::prelude::*;

verus! {

/// Order side: `Bid` buys, `Ask` sells.
#[derive(Clone, Copy, Debug, PartialEq, Eq, Structural)]
pub enum Side {
    Bid,
    Ask,
}

/// Time-in-force instruction for the lifetime of an order.
#[derive(Clone, Copy, Debug, PartialEq, Eq, Structural)]
pub enum TimeInForce {
    /// Active until the end of the trading session.
    Day,
    /// Execute immediately, cancel the remainder.
    IOC,
    /// Execute the entire order immediately or cancel it.
    FOK,
}

/// Order execution type.
#[derive(Clone, Copy, Debug, PartialEq, Eq, Structural)]
pub enum OrderKind {
    /// Execute only at the given price or better.
    Limit,
    /// Execute immediately at the best available price.
    Market,
}

/// Unique order identifier.
#[derive(Clone, Copy, Debug, PartialEq, Eq, Hash, Structural)]
pub struct OrderId(pub u128);

/// A limit order, incoming or resting.
#[derive(Clone, Debug, PartialEq, Eq)]
pub struct Order {
    pub id: OrderId,
    pub symbol: String,
    pub side: Side,
    /// Price in integer ticks.
    pub px_ticks: i64,
    /// Quantity still open.
    pub qty: i64,
    /// Submission time in nanoseconds.
    pub ts_ns: u128,
}

/// The record of one match between a resting order and an incoming one.
#[derive(Clone, Debug, PartialEq, Eq)]
pub struct Trade {
    /// Resting order, which provided the liquidity.
    pub maker: OrderId,
    /// Incoming order, which took it.
    pub taker: OrderId,
    pub symbol: String,
    /// Execution price: always the maker's resting price.
    pub px_ticks: i64,
    /// Quantity filled.
    pub qty: i64,
    /// Submission time of the taker, in nanoseconds.
    pub ts_ns: u128,
}

/// Creates the order with the given fields, submitted at the time
/// `ts_ns`.
pub fn create_order(
    id: u128,
    symbol: &str,
    side: Side,
    price: i64,
    qty: i64,
    ts_ns: u128,
) -> (order: Order)
    ensures
        order.id == OrderId(id),
        order.symbol@ == symbol@,
        order.side == side,
        order.px_ticks == price,
        order.qty == qty,
        order.ts_ns == ts_ns,
{
    Order { id: OrderId(id), symbol: symbol.to_owned(), side, px_ticks: price, qty, ts_ns }
}

/// What an [`Order`] is, as plain mathematical values.
pub struct OrderView {
    pub id: u128,
    pub symbol: Seq<char>,
    pub side: Side,
    pub px: int,
    pub qty: int,
    pub ts: nat,
}

/// What a [`Trade`] is, as plain mathematical values.
pub struct TradeView {
    pub maker: u128,
    pub taker: u128,
    pub symbol: Seq<char>,
    pub px: int,
    pub qty: int,
    pub ts: nat,
}

impl View for Order {
    type V = OrderView;

    open spec fn view(&self) -> OrderView {
        OrderView {
            id: self.id.0,
            symbol: self.symbol@,
            side: self.side,
            px: self.px_ticks as int,
            qty: self.qty as int,
            ts: self.ts_ns as nat,
        }
    }
}

impl View for Trade {
    type V = TradeView;

    open spec fn view(&self) -> TradeView {
        TradeView {
            maker: self.maker.0,
            taker: self.taker.0,
            symbol: self.symbol@,
            px: self.px_ticks as int,
            qty: self.qty as int,
            ts: self.ts_ns as nat,
        }
    }
}

impl OrderView {
    /// The same order with `qty` still open.
    pub open spec fn with_qty(self, qty: int) -> OrderView {
        OrderView { qty, ..self }
    }

    /// Whether every field fits the executable [`Order`].
    pub open spec fn in_range(self) -> bool {
        &&& i64::MIN <= self.px <= i64::MAX
        &&& i64::MIN <= self.qty <= i64::MAX
        &&& self.ts <= u128::MAX
    }
}

/// The views of a sequence of orders, in the same order.
pub open spec fn order_views(orders: Seq<Order>) -> Seq<OrderView> {
    orders.map_values(|o: Order| o@)
}

/// The views of a sequence of trades, in the same order.
pub open spec fn trade_views(trades: Seq<Trade>) -> Seq<TradeView> {
    trades.map_values(|t: Trade| t@)
}

} // verus!

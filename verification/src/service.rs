//! What the request handlers and the market-data streams of a venue
//! decide, apart from the transport that carries their messages.

use crate::snapshot::MarketDepth;
use crate::types::{Order, OrderId, Side, Trade};
use vstd::prelude::*;
use vstd::string::StringExecFns;

verus! {

/// Request to submit a new limit order.
#[derive(Debug)]
pub struct SubmitOrderRequest {
    pub side: Side,
    pub price: i64,
    pub quantity: i64,
}

/// Response after submitting an order.
#[derive(Debug)]
pub struct SubmitOrderResponse {
    pub order_id: u128,
    /// `"filled"` where the order traded, `"rested"` where it did not.
    pub status: String,
    /// The trades that the order gave rise to at once.
    pub trades: Vec<Trade>,
}

/// Query parameters of a depth request.
#[derive(Debug)]
pub struct DepthQuery {
    pub levels: Option<usize>,
}

/// The symbols that a venue trades.
#[derive(Debug)]
pub struct SymbolsResponse {
    pub symbols: Vec<String>,
}

/// A trade as it is sent to the subscribers of a symbol.
#[derive(Debug, Clone)]
pub struct TradeEvent {
    pub symbol: String,
    pub trade: Trade,
    pub timestamp: u128,
}

/// The top of a book as it is sent to the subscribers of a symbol.
#[derive(Debug, Clone)]
pub struct DepthUpdate {
    pub symbol: String,
    pub best_bid: Option<i64>,
    pub best_ask: Option<i64>,
    pub bid_size: i64,
    pub ask_size: i64,
    pub timestamp: u128,
}

/// A message on a market-data stream.
#[derive(Debug)]
pub enum WebSocketMessage {
    Trade(TradeEvent),
    Depth(DepthUpdate),
    Error { message: String },
    Ping { timestamp: u128 },
    Pong { timestamp: u128 },
}

/// Why a request was turned down.
#[derive(Clone, Copy, Debug, PartialEq, Eq, Structural)]
pub enum AppError {
    /// The venue does not trade the symbol.
    SymbolNotFound,
    /// No order was canceled: none rests under the id, or it was
    /// canceled before.
    OrderNotFound,
    /// The text is not an order id.
    InvalidOrderId,
    /// The request asks for no quantity, or for less than none.
    InvalidQuantity,
}

impl AppError {
    /// The HTTP status that reports the error: 404 where something was
    /// not found, 400 for a request that cannot be read or met.
    pub fn status_code(&self) -> (code: u16)
        ensures
            code == match *self {
                AppError::SymbolNotFound => 404u16,
                AppError::OrderNotFound => 404u16,
                AppError::InvalidOrderId => 400u16,
                AppError::InvalidQuantity => 400u16,
            },
    {
        match self {
            AppError::SymbolNotFound => 404,
            AppError::OrderNotFound => 404,
            AppError::InvalidOrderId => 400,
            AppError::InvalidQuantity => 400,
        }
    }

    /// The text that reports the error.
    pub fn message(&self) -> (text: &'static str)
        ensures
            text@ == match *self {
                AppError::SymbolNotFound => "Symbol not found"@,
                AppError::OrderNotFound => "Order not found"@,
                AppError::InvalidOrderId => "Invalid order ID"@,
                AppError::InvalidQuantity => "Invalid quantity"@,
            },
    {
        match self {
            AppError::SymbolNotFound => "Symbol not found",
            AppError::OrderNotFound => "Order not found",
            AppError::InvalidOrderId => "Invalid order ID",
            AppError::InvalidQuantity => "Invalid quantity",
        }
    }
}

/// The number of price levels that a depth request asks for: 10 where it
/// names none.
pub fn depth_levels(query: &DepthQuery) -> (levels: usize)
    ensures
        levels == match query.levels {
            Some(n) => n,
            None => 10usize,
        },
{
    match query.levels {
        Some(n) => n,
        None => 10,
    }
}

/// Whether a book can take the order that `request` stands for: it must
/// ask for a quantity above 0. A book matches and rests orders with
/// quantity open only, so a venue turns any other request down before it
/// reaches a book.
pub fn check_request(request: &SubmitOrderRequest) -> (r: Result<(), AppError>)
    ensures
        r == if request.quantity > 0 {
            Ok::<(), AppError>(())
        } else {
            Err::<(), AppError>(AppError::InvalidQuantity)
        },
{
    if request.quantity > 0 {
        Ok(())
    } else {
        Err(AppError::InvalidQuantity)
    }
}

/// The order that a request for `symbol` stands for, under the id and
/// the time that the venue gave it.
pub fn order_from_request(
    symbol: &str,
    request: &SubmitOrderRequest,
    id: OrderId,
    now_ns: u128,
) -> (order: Order)
    ensures
        order.id == id,
        order.symbol@ == symbol@,
        order.side == request.side,
        order.px_ticks == request.price,
        order.qty == request.quantity,
        order.ts_ns == now_ns,
{
    Order {
        id,
        symbol: symbol.to_owned(),
        side: request.side,
        px_ticks: request.price,
        qty: request.quantity,
        ts_ns: now_ns,
    }
}

/// The answer to a submission: `"rested"` where the order did not trade,
/// `"filled"` where it did, in part or in full.
pub fn submit_response(order_id: OrderId, trades: Vec<Trade>) -> (response: SubmitOrderResponse)
    ensures
        response.order_id == order_id.0,
        response.trades == trades,
        response.status@ == if trades@.len() == 0 {
            "rested"@
        } else {
            "filled"@
        },
{
    let status = if trades.len() == 0 {
        "rested".to_owned()
    } else {
        "filled".to_owned()
    };
    SubmitOrderResponse { order_id: order_id.0, status, trades }
}

/// The events that announce `trades` to the subscribers of `symbol`, in
/// the order of the trades.
pub fn trade_events(symbol: &str, trades: &Vec<Trade>, now_ms: u128) -> (events: Vec<TradeEvent>)
    ensures
        events@.len() == trades@.len(),
        forall|i: int|
            0 <= i < events@.len() ==> {
                let event = #[trigger] events@[i];
                &&& event.symbol@ == symbol@
                &&& event.trade@ == trades@[i]@
                &&& event.timestamp == now_ms
            },
{
    let mut events: Vec<TradeEvent> = Vec::new();
    let mut i: usize = 0;
    while i < trades.len()
        invariant
            0 <= i <= trades@.len(),
            events@.len() == i,
            forall|k: int|
                0 <= k < i ==> {
                    let event = #[trigger] events@[k];
                    &&& event.symbol@ == symbol@
                    &&& event.trade@ == trades@[k]@
                    &&& event.timestamp == now_ms
                },
        decreases trades@.len() - i,
    {
        let trade = Trade {
            maker: trades[i].maker,
            taker: trades[i].taker,
            symbol: trades[i].symbol.clone(),
            px_ticks: trades[i].px_ticks,
            qty: trades[i].qty,
            ts_ns: trades[i].ts_ns,
        };
        events.push(TradeEvent { symbol: symbol.to_owned(), trade, timestamp: now_ms });
        i = i + 1;
    }
    events
}

/// What a cancellation reports: an unknown symbol where the venue found
/// no book, an unknown order where the book canceled none.
pub fn cancel_outcome(cancelled: Option<bool>) -> (outcome: Result<(), AppError>)
    ensures
        outcome == match cancelled {
            None => Err::<(), AppError>(AppError::SymbolNotFound),
            Some(false) => Err::<(), AppError>(AppError::OrderNotFound),
            Some(true) => Ok::<(), AppError>(()),
        },
{
    match cancelled {
        None => Err(AppError::SymbolNotFound),
        Some(false) => Err(AppError::OrderNotFound),
        Some(true) => Ok(()),
    }
}

/// Whether `text` is one decimal digit or more, and nothing else.
pub open spec fn is_decimal(text: Seq<char>) -> bool {
    &&& text.len() > 0
    &&& forall|i: int| 0 <= i < text.len() ==> '0' <= #[trigger] text[i] <= '9'
}

/// The number that the decimal digits of `text` write.
pub open spec fn decimal_value(text: Seq<char>) -> nat
    decreases text.len(),
{
    if text.len() == 0 {
        0
    } else {
        (decimal_value(text.drop_last()) * 10 + (text.last() as nat - '0' as nat)) as nat
    }
}

/// The number that `text` writes for a reader of unsigned 128-bit
/// numbers: decimal digits, after a plus sign or without one, that write
/// a number within 128 bits. Any other text writes none.
pub open spec fn decimal_u128(text: Seq<char>) -> Option<u128> {
    let digits = digits_of(text);
    if is_decimal(digits) && decimal_value(digits) <= u128::MAX {
        Some(decimal_value(digits) as u128)
    } else {
        None
    }
}

/// The digits of `text`: the text without the plus sign that it may
/// begin with.
pub open spec fn digits_of(text: Seq<char>) -> Seq<char> {
    if text.len() > 0 && text[0] == '+' {
        text.skip(1)
    } else {
        text
    }
}

/// Digits that follow digits make the number no smaller.
proof fn lemma_decimal_grows(digits: Seq<char>, k: int)
    requires
        is_decimal(digits),
        0 <= k <= digits.len(),
    ensures
        decimal_value(digits.take(k)) <= decimal_value(digits),
    decreases digits.len() - k,
{
    if k == digits.len() {
        assert(digits.take(k) =~= digits);
    } else {
        lemma_decimal_grows(digits, k + 1);
        let longer = digits.take(k + 1);
        assert(longer.drop_last() =~= digits.take(k));
        assert(longer.last() == digits[k]);
    }
}

/// The value of `c` as a decimal digit, where it is one.
fn digit_value(c: char) -> (digit: Option<u128>)
    ensures
        digit == if '0' <= c <= '9' {
            Some((c as nat - '0' as nat) as u128)
        } else {
            None
        },
{
    let code: u32 = c as u32;
    if code < 48 || code > 57 {
        None
    } else {
        Some((code - 48) as u128)
    }
}

/// Reads an order id from `text`: a decimal number within 128 bits,
/// after a plus sign or without one. Any other text is turned down as an
/// invalid order id.
pub fn parse_order_id(text: &str) -> (r: Result<OrderId, AppError>)
    ensures
        r == match decimal_u128(text@) {
            Some(number) => Ok::<OrderId, AppError>(OrderId(number)),
            None => Err::<OrderId, AppError>(AppError::InvalidOrderId),
        },
{
    let ghost digits = digits_of(text@);
    let ghost sign = text@.len() - digits.len();
    let mut value: u128 = 0;
    let mut valid = true;
    let mut seen = false;
    let mut first = true;
    proof {
        assert(digits.take(0) =~= Seq::<char>::empty());
    }
    for c in it: text.chars()
        invariant
            it.seq() == text@,
            digits == digits_of(text@),
            sign == text@.len() - digits.len(),
            first == (it.index() == 0),
            it.index() > 0 ==> it.index() >= sign,
            seen == (it.index() > sign),
            !valid ==> decimal_u128(text@).is_none(),
            valid ==> value == decimal_value(
                digits.take(
                    if it.index() > sign {
                        it.index() - sign
                    } else {
                        0
                    },
                ),
            ),
            valid ==> forall|j: int|
                0 <= j < it.index() - sign ==> '0' <= #[trigger] digits[j] <= '9',
    {
        let ghost at = it.index() - sign;
        if first && c == '+' {
            proof {
                assert(digits.take(0) =~= Seq::<char>::empty());
            }
        } else if valid {
            proof {
                assert(c == digits[at]);
            }
            match digit_value(c) {
                None => {
                    valid = false;
                },
                Some(digit) => {
                    proof {
                        let longer = digits.take(at + 1);
                        assert(longer.drop_last() =~= digits.take(at));
                        assert(longer.last() == c);
                        if is_decimal(digits) {
                            lemma_decimal_grows(digits, at + 1);
                        }
                    }
                    match value.checked_mul(10) {
                        Some(tens) => match tens.checked_add(digit) {
                            Some(next) => {
                                value = next;
                            },
                            None => {
                                valid = false;
                            },
                        },
                        None => {
                            valid = false;
                        },
                    }
                },
            }
            seen = true;
        } else {
            seen = true;
        }
        first = false;
    }
    proof {
        assert(digits.take(digits.len() as int) =~= digits);
    }
    if valid && seen {
        Ok(OrderId(value))
    } else {
        Err(AppError::InvalidOrderId)
    }
}

/// What a subscriber sent, or that it sent no more.
#[derive(Debug)]
pub enum ClientFrame {
    /// A text frame, with the message that it holds where it holds one.
    Text(Option<WebSocketMessage>),
    /// A binary frame.
    Binary,
    /// A ping of the transport, with its payload.
    Ping(Vec<u8>),
    /// A pong of the transport.
    Pong,
    /// The subscriber closed the stream.
    Close,
    /// The transport failed.
    Failed,
    /// The stream ended.
    Ended,
}

/// What a stream does next.
#[derive(Debug)]
pub enum StreamAction {
    /// Nothing.
    Ignore,
    /// Send a message.
    Send(WebSocketMessage),
    /// Answer a ping of the transport with its payload.
    SendPong(Vec<u8>),
    /// End the stream.
    Stop,
}

/// What a stream does with a frame of its subscriber: it answers a ping,
/// of the protocol or of the transport, with the time or the payload
/// that the ping carried, ends when the subscriber closed, failed or
/// ended, and ignores everything else.
pub fn on_client_frame(frame: ClientFrame) -> (action: StreamAction)
    ensures
        match frame {
            ClientFrame::Text(Some(WebSocketMessage::Ping { timestamp })) => action
                matches StreamAction::Send(WebSocketMessage::Pong { timestamp: echoed })
                && echoed == timestamp,
            ClientFrame::Text(_) => action is Ignore,
            ClientFrame::Binary => action is Ignore,
            ClientFrame::Ping(data) => action matches StreamAction::SendPong(echoed) && echoed
                == data,
            ClientFrame::Pong => action is Ignore,
            ClientFrame::Close => action is Stop,
            ClientFrame::Failed => action is Stop,
            ClientFrame::Ended => action is Stop,
        },
{
    match frame {
        ClientFrame::Text(Some(WebSocketMessage::Ping { timestamp })) => StreamAction::Send(
            WebSocketMessage::Pong { timestamp },
        ),
        ClientFrame::Text(_) => StreamAction::Ignore,
        ClientFrame::Binary => StreamAction::Ignore,
        ClientFrame::Ping(data) => StreamAction::SendPong(data),
        ClientFrame::Pong => StreamAction::Ignore,
        ClientFrame::Close => StreamAction::Stop,
        ClientFrame::Failed => StreamAction::Stop,
        ClientFrame::Ended => StreamAction::Stop,
    }
}

/// The message that announces `event` on the stream of `symbol`, where
/// the event is of that symbol.
pub fn on_trade_event(symbol: &String, event: TradeEvent) -> (message: Option<WebSocketMessage>)
    ensures
        match message {
            Some(WebSocketMessage::Trade(sent)) => event.symbol@ == symbol@ && sent == event,
            Some(_) => false,
            None => event.symbol@ != symbol@,
        },
{
    if event.symbol == *symbol {
        Some(WebSocketMessage::Trade(event))
    } else {
        None
    }
}

/// The heartbeat that a stream sends at the time `now_ms`.
pub fn heartbeat(now_ms: u128) -> (message: WebSocketMessage)
    ensures
        message matches WebSocketMessage::Ping { timestamp } && timestamp == now_ms,
{
    WebSocketMessage::Ping { timestamp: now_ms }
}

/// The update that opens a depth stream: the best level of each side of
/// `depth`, with its price and its quantity, and no price and quantity 0
/// for a side without a level.
pub fn initial_depth_update(symbol: &str, depth: &MarketDepth, now_ms: u128) -> (update:
    DepthUpdate)
    ensures
        update.symbol@ == symbol@,
        update.timestamp == now_ms,
        if depth.bids@.len() > 0 {
            update.best_bid == Some(depth.bids@[0].price) && update.bid_size
                == depth.bids@[0].quantity
        } else {
            update.best_bid.is_none() && update.bid_size == 0
        },
        if depth.asks@.len() > 0 {
            update.best_ask == Some(depth.asks@[0].price) && update.ask_size
                == depth.asks@[0].quantity
        } else {
            update.best_ask.is_none() && update.ask_size == 0
        },
{
    let (best_bid, bid_size) = if depth.bids.len() > 0 {
        (Some(depth.bids[0].price), depth.bids[0].quantity)
    } else {
        (None, 0)
    };
    let (best_ask, ask_size) = if depth.asks.len() > 0 {
        (Some(depth.asks[0].price), depth.asks[0].quantity)
    } else {
        (None, 0)
    };
    DepthUpdate {
        symbol: symbol.to_owned(),
        best_bid,
        best_ask,
        bid_size,
        ask_size,
        timestamp: now_ms,
    }
}

/// Whether the best prices differ from those that were sent last, so
/// that a depth stream owes an update.
pub fn depth_changed(
    best: (Option<i64>, Option<i64>),
    last_sent: (Option<i64>, Option<i64>),
) -> (changed: bool)
    ensures
        changed == (best.0 != last_sent.0 || best.1 != last_sent.1),
{
    !same_price(best.0, last_sent.0) || !same_price(best.1, last_sent.1)
}

/// Whether two best prices are the same.
fn same_price(a: Option<i64>, b: Option<i64>) -> (same: bool)
    ensures
        same == (a == b),
{
    match (a, b) {
        (Some(x), Some(y)) => x == y,
        (None, None) => true,
        _ => false,
    }
}

/// The update that a depth stream sends after the best prices changed:
/// the best prices, with the number of live orders of each side, bids
/// first, and 0 for both where the venue no longer trades the symbol.
pub fn depth_update(
    symbol: &str,
    best: (Option<i64>, Option<i64>),
    volume: Option<(i64, i64)>,
    now_ms: u128,
) -> (update: DepthUpdate)
    ensures
        update.symbol@ == symbol@,
        update.best_bid == best.0,
        update.best_ask == best.1,
        update.bid_size == match volume {
            Some(v) => v.0,
            None => 0i64,
        },
        update.ask_size == match volume {
            Some(v) => v.1,
            None => 0i64,
        },
        update.timestamp == now_ms,
{
    let (bid_size, ask_size) = match volume {
        Some(v) => v,
        None => (0, 0),
    };
    DepthUpdate {
        symbol: symbol.to_owned(),
        best_bid: best.0,
        best_ask: best.1,
        bid_size,
        ask_size,
        timestamp: now_ms,
    }
}

/// What `str::to_lowercase` returns for the text `s`.
pub uninterp spec fn lowercase_of(s: Seq<char>) -> Seq<char>;

/// The lowercase form of `s`, by `str::to_lowercase`.
///
/// Assumed of the standard library: the result depends on the text
/// alone. What it is for a given text is not stated.
#[verifier::external_body]
fn to_lowercase(s: &str) -> (lower: String)
    ensures
        lower@ == lowercase_of(s@),
{
    s.to_lowercase()
}

/// The side that a word in lowercase names: `bid` and `buy` name the
/// bids, `ask` and `sell` the asks.
pub open spec fn side_named(word: Seq<char>) -> Option<Side> {
    if word == "bid"@ || word == "buy"@ {
        Some(Side::Bid)
    } else if word == "ask"@ || word == "sell"@ {
        Some(Side::Ask)
    } else {
        None
    }
}

/// Returns the side that `word` names, where it names one. Letter case
/// counts: the names are in lowercase.
pub fn side_from_word(word: &String) -> (side: Option<Side>)
    ensures
        side == side_named(word@),
{
    if *word == "bid".to_owned() || *word == "buy".to_owned() {
        Some(Side::Bid)
    } else if *word == "ask".to_owned() || *word == "sell".to_owned() {
        Some(Side::Ask)
    } else {
        None
    }
}

/// Reads a side from `s`, whatever its letter case: `bid` and `buy` name
/// the bids, `ask` and `sell` the asks. Any other text is turned down
/// with a message that repeats it.
pub fn parse_side(s: &str) -> (r: Result<Side, String>)
    ensures
        match side_named(lowercase_of(s@)) {
            Some(side) => r == Ok::<Side, String>(side),
            None => r is Err && r->Err_0@ == "Invalid side: "@ + s@ + ". Use 'bid' or 'ask'"@,
        },
{
    let lower = to_lowercase(s);
    match side_from_word(&lower) {
        Some(side) => Ok(side),
        None => {
            let mut message = "Invalid side: ".to_owned();
            message.append(s);
            message.append(". Use 'bid' or 'ask'");
            Err(message)
        },
    }
}

} // verus!

//! Price-time-priority limit order book, verified with Verus.
//!
//! The crate is built bottom-up:
//!
//! - [`types`]: orders, trades and their mathematical views;
//! - [`model`]: the abstract state of one side of a book, a priority
//!   sequence of resting orders with the ids marked as canceled, and the
//!   operations on it as specification functions;
//! - [`price_levels`]: the executable store for one side, proved against
//!   the model;
//! - [`matching`]: what matching an incoming order against the opposite
//!   side yields, as a specification function;
//! - [`order_book`]: the executable two-sided book;
//! - [`snapshot`] and [`exchange`]: the pictures of a book that a venue
//!   hands out, and what a venue does with the book of one symbol;
//! - [`service`]: what the request handlers and the market-data streams
//!   of a venue decide;
//! - [`laws`] and [`book_laws`]: properties that hold of every side and
//!   of every book, proved from the specification functions;
//! - [`lemmas`]: the facts about priority sequences that the proofs
//!   share.
//!
//! Every executable function states what it returns and how it changes
//! its arguments in terms of the model, and asks of a store or a book
//! only that it is valid, which `new` establishes and every function
//! keeps.

pub mod book_laws;
pub mod exchange;
mod keys;
pub mod laws;
pub mod lemmas;
pub mod matching;
pub mod model;
pub mod order_book;
pub mod price_levels;
pub mod service;
pub mod snapshot;
pub mod types;

pub use order_book::OrderBook;
pub use price_levels::PriceLevels;
pub use types::{Order, OrderId, OrderKind, Side, TimeInForce, Trade};

//! A price-time priority limit order book and matching engine.
//!
//! Incoming orders trade against the opposite side of the book, best price
//! first and, within a price, oldest order first; what is left of a limit
//! order rests on the book. The engine also cancels and amends resting
//! orders, applies pre-trade risk limits, and reports the book's depth.

pub mod book_model;
pub mod depth;
pub mod laws;
pub mod matching;
pub mod matching_engine;
pub mod order;
pub mod orderbook;
pub mod price_level;
pub mod risk;
pub mod side;
pub mod simulation;
pub mod trade;

pub use depth::{DepthLevel, DepthSnapshot};
pub use matching_engine::{AmendError, CancelError, MatchingEngine};
pub use order::Order;
pub use orderbook::Orderbook;
pub use price_level::PriceLevel;
pub use risk::{RiskGate, RiskRejection};
pub use side::Side;
pub use trade::Trade;

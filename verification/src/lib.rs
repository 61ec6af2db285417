//! Price-time priority limit order book matching engine.

pub mod book;
pub mod collectors;
pub mod error;
pub mod locations;
pub mod matching;
pub mod metrics;
pub mod operations;
pub mod price_level;
pub mod time;
pub mod types;
pub mod util;

pub use book::OrderBook;
pub use book::OrderBookStats;
pub use error::OrderBookError;
pub use metrics::OrderBookMetrics;
pub use types::MarketEvent;
pub use types::Order;
pub use types::OrderId;
pub use types::OrderStatus;
pub use types::OrderType;
pub use types::Price;
pub use types::Quantity;
pub use types::Side;
pub use types::Trade;
pub use price_level::PriceLevel;

//! Error taxonomy for the order book operations.

use vstd::prelude::*;
use vstd::string::StringExecFns;

verus! {

/// Checked errors surfaced by the public operations of the engine.
#[derive(Debug, Clone, PartialEq, Eq)]
pub enum OrderBookError {
    /// Order not found in the book
    OrderNotFound,
    /// Invalid symbol for this order book
    InvalidSymbol,
    /// Invalid order type for the operation
    InvalidOrderType,
    /// Invalid price (e.g., zero)
    InvalidPrice,
    /// Invalid quantity (e.g., zero)
    InvalidQuantity,
    /// No liquidity available for a market order
    NoLiquidity,
    /// Order already exists
    DuplicateOrder,
    /// Cannot fill more than the remaining quantity
    OverFill,
    /// Order is not in a valid state for the operation
    InvalidOrderState,
    /// Self-trade prevention
    SelfTrade,
    /// Order size exceeds what the aggregate counters can hold
    OrderTooLarge,
    /// Price is outside the allowed range
    PriceOutOfRange,
    /// Internal inconsistency detected at runtime
    SystemError(String),
}

/// The character sequence `message` returns for each error.
pub open spec fn spec_message(e: OrderBookError) -> Seq<char> {
    match e {
        OrderBookError::OrderNotFound => "Order not found"@,
        OrderBookError::InvalidSymbol => "Invalid symbol"@,
        OrderBookError::InvalidOrderType => "Invalid order type"@,
        OrderBookError::InvalidPrice => "Invalid price"@,
        OrderBookError::InvalidQuantity => "Invalid quantity"@,
        OrderBookError::NoLiquidity => "No liquidity available"@,
        OrderBookError::DuplicateOrder => "Order already exists"@,
        OrderBookError::OverFill => "Cannot fill more than remaining quantity"@,
        OrderBookError::InvalidOrderState => "Invalid order state"@,
        OrderBookError::SelfTrade => "Self-trade not allowed"@,
        OrderBookError::OrderTooLarge => "Order size exceeds maximum"@,
        OrderBookError::PriceOutOfRange => "Price outside allowed range"@,
        OrderBookError::SystemError(msg) => "System error: "@ + msg@,
    }
}

impl OrderBookError {
    /// A human-readable description of the error.
    pub fn message(&self) -> (res: String)
        ensures
            res@ == spec_message(*self),
    {
        match self {
            OrderBookError::OrderNotFound => String::from_str("Order not found"),
            OrderBookError::InvalidSymbol => String::from_str("Invalid symbol"),
            OrderBookError::InvalidOrderType => String::from_str("Invalid order type"),
            OrderBookError::InvalidPrice => String::from_str("Invalid price"),
            OrderBookError::InvalidQuantity => String::from_str("Invalid quantity"),
            OrderBookError::NoLiquidity => String::from_str("No liquidity available"),
            OrderBookError::DuplicateOrder => String::from_str("Order already exists"),
            OrderBookError::OverFill => String::from_str("Cannot fill more than remaining quantity"),
            OrderBookError::InvalidOrderState => String::from_str("Invalid order state"),
            OrderBookError::SelfTrade => String::from_str("Self-trade not allowed"),
            OrderBookError::OrderTooLarge => String::from_str("Order size exceeds maximum"),
            OrderBookError::PriceOutOfRange => String::from_str("Price outside allowed range"),
            OrderBookError::SystemError(msg) => String::from_str("System error: ").concat(
                msg.as_str(),
            ),
        }
    }
}

/// Result type for order book operations.
pub type OrderBookResult<T> = Result<T, OrderBookError>;

} // verus!

use orderbook::error::OrderBookError;

#[test]
fn test_error_display() {
    assert_eq!(OrderBookError::OrderNotFound.message(), "Order not found");
    assert_eq!(OrderBookError::InvalidSymbol.message(), "Invalid symbol");
    assert_eq!(
        OrderBookError::SystemError("Test error".to_string()).message(),
        "System error: Test error"
    );
}

#[test]
fn test_error_messages_distinct() {
    let a = OrderBookError::NoLiquidity.message();
    let b = OrderBookError::DuplicateOrder.message();
    assert_ne!(a, b);
    assert_eq!(a, "No liquidity available");
    assert_eq!(b, "Order already exists");
}

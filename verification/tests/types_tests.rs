use orderbook::types::Order;
use orderbook::types::OrderStatus;
use orderbook::types::OrderType;
use orderbook::types::Side;
use orderbook::types::opposite_side;

#[test]
fn test_order_creation() {
    let order = Order::new_limit(
        "AAPL".to_string(),
        Side::Buy,
        15000,
        100,
        Some("client123".to_string()),
    );

    assert_eq!(order.side, Side::Buy);
    assert_eq!(order.price, 15000);
    assert_eq!(order.original_quantity, 100);
    assert_eq!(order.remaining_quantity, 100);
    assert_eq!(order.status, OrderStatus::New);
}

#[test]
fn test_order_fill() {
    let mut order = Order::new_limit("AAPL".to_string(), Side::Buy, 15000, 100, None);

    order.fill(30).unwrap();
    assert_eq!(order.filled_quantity, 30);
    assert_eq!(order.remaining_quantity, 70);
    assert_eq!(order.status, OrderStatus::PartiallyFilled);

    order.fill(70).unwrap();
    assert_eq!(order.filled_quantity, 100);
    assert_eq!(order.remaining_quantity, 0);
    assert_eq!(order.status, OrderStatus::Filled);
}

#[test]
fn test_overfill_error() {
    let mut order = Order::new_limit("AAPL".to_string(), Side::Buy, 15000, 100, None);
    let result = order.fill(150);
    assert!(result.is_err());
}

#[test]
fn test_opposite_side() {
    assert_eq!(opposite_side(Side::Buy), Side::Sell);
    assert_eq!(opposite_side(Side::Sell), Side::Buy);
}

#[test]
fn test_market_order_has_no_price() {
    let order = Order::new_market("AAPL".to_string(), Side::Sell, 25, None);
    assert_eq!(order.price, 0);
    assert_eq!(order.order_type, OrderType::Market);
    assert_eq!(order.remaining_quantity, 25);
}

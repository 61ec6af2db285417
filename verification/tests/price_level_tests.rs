use orderbook::price_level::PriceLevel;
use orderbook::types::Order;
use orderbook::types::OrderStatus;
use orderbook::types::OrderType;
use orderbook::types::Price;
use orderbook::types::Quantity;
use orderbook::types::Side;

fn create_test_order(id: u128, price: Price, quantity: Quantity) -> Order {
    Order {
        id,
        symbol: "TEST".to_string(),
        side: Side::Buy,
        order_type: OrderType::Limit,
        price,
        original_quantity: quantity,
        remaining_quantity: quantity,
        filled_quantity: 0,
        status: OrderStatus::New,
        timestamp: 0,
        client_id: None,
    }
}

#[test]
fn test_price_level_add_order() {
    let mut level = PriceLevel::new(10000);
    let order = create_test_order(1, 10000, 100);

    level.add_order(order);

    assert_eq!(level.total_quantity(), 100);
    assert_eq!(level.order_count(), 1);
    assert!(!level.is_empty());
}

#[test]
fn test_price_level_time_priority() {
    let mut level = PriceLevel::new(10000);

    let order1 = create_test_order(1, 10000, 100);
    let order2 = create_test_order(2, 10000, 200);
    let order1_id = order1.id;

    level.add_order(order1);
    level.add_order(order2);

    let front = level.peek_front().unwrap();
    assert_eq!(front.id, order1_id);
    assert_eq!(front.remaining_quantity, 100);
}

#[test]
fn test_take_quantity_full_fill() {
    let mut level = PriceLevel::new(10000);
    let order = create_test_order(1, 10000, 100);

    level.add_order(order);

    let fills = level.take_quantity(100);
    assert_eq!(fills.len(), 1);
    assert_eq!(fills[0].1, 100);
    assert_eq!(level.total_quantity(), 0);
    assert_eq!(level.order_count(), 0);
}

#[test]
fn test_take_quantity_partial_fill() {
    let mut level = PriceLevel::new(10000);
    let order = create_test_order(1, 10000, 100);

    level.add_order(order);

    let fills = level.take_quantity(50);
    assert_eq!(fills.len(), 1);
    assert_eq!(fills[0].1, 50);
    assert_eq!(level.total_quantity(), 50);
    assert_eq!(level.order_count(), 1);
}

#[test]
fn test_take_quantity_multiple_orders() {
    let mut level = PriceLevel::new(10000);

    level.add_order(create_test_order(1, 10000, 100));
    level.add_order(create_test_order(2, 10000, 200));

    let fills = level.take_quantity(250);
    assert_eq!(fills.len(), 2);
    assert_eq!(fills[0].1, 100);
    assert_eq!(fills[1].1, 150);
    assert_eq!(level.total_quantity(), 50);
    assert_eq!(level.order_count(), 1);
}

#[test]
fn test_remove_order() {
    let mut level = PriceLevel::new(10000);
    let order = create_test_order(1, 10000, 100);
    let order_id = order.id;

    level.add_order(order);

    let removed = level.remove_order(&order_id);
    assert!(removed.is_some());
    assert_eq!(level.total_quantity(), 0);
    assert_eq!(level.order_count(), 0);
    assert!(level.is_empty());
}

#[test]
fn price_level_test_modify_order_quantity() {
    let mut level = PriceLevel::new(10000);
    let order = create_test_order(1, 10000, 100);
    let order_id = order.id;

    level.add_order(order);

    let old_qty = level.modify_order_quantity(&order_id, 150);
    assert_eq!(old_qty, Some(100));
    assert_eq!(level.total_quantity(), 150);

    let old_qty = level.modify_order_quantity(&order_id, 75);
    assert_eq!(old_qty, Some(150));
    assert_eq!(level.total_quantity(), 75);
}

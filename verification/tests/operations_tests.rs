use orderbook::book::OrderBook;
use orderbook::operations::BatchOperations;
use orderbook::operations::OrderOperations;
use orderbook::types::MarketEvent;
use orderbook::types::Order;
use orderbook::types::Price;
use orderbook::types::Quantity;
use orderbook::types::Side;

fn create_test_order(side: Side, price: Price, quantity: Quantity) -> Order {
    Order::new_limit("TEST".to_string(), side, price, quantity, None)
}

#[test]
fn test_add_order() {
    let mut book = OrderBook::new("TEST".to_string());

    let order = create_test_order(Side::Buy, 10000, 100);
    let events = OrderOperations::add_order(&mut book, order).unwrap();

    assert_eq!(events.len(), 1);
    assert_eq!(book.get_stats().bid_levels, 1);
    assert_eq!(book.total_orders(), 1);
}

#[test]
fn operations_test_cancel_order() {
    let mut book = OrderBook::new("TEST".to_string());

    let order = create_test_order(Side::Buy, 10000, 100);
    let order_id = order.id;

    OrderOperations::add_order(&mut book, order).unwrap();

    let cancel_event = OrderOperations::cancel_order(&mut book, &order_id).unwrap();

    if let MarketEvent::OrderCancelled { order_id: cancelled_id, remaining_quantity } = cancel_event
    {
        assert_eq!(cancelled_id, order_id);
        assert_eq!(remaining_quantity, 100);
    } else {
        panic!("Expected cancel event");
    }

    assert_eq!(book.get_stats().bid_levels, 0);
    assert_eq!(book.total_orders(), 0);
}

#[test]
fn operations_test_modify_order_quantity() {
    let mut book = OrderBook::new("TEST".to_string());

    let order = create_test_order(Side::Buy, 10000, 100);
    let order_id = order.id;

    OrderOperations::add_order(&mut book, order).unwrap();

    let events = OrderOperations::modify_order(&mut book, &order_id, None, Some(150)).unwrap();

    assert_eq!(events.len(), 1);
    if let MarketEvent::OrderModified { order_id: modified_id, new_quantity, .. } = &events[0] {
        assert_eq!(*modified_id, order_id);
        assert_eq!(*new_quantity, Some(150));
    } else {
        panic!("Expected modify event");
    }
}

#[test]
fn test_modify_order_price_change() {
    let mut book = OrderBook::new("TEST".to_string());

    let order = create_test_order(Side::Buy, 10000, 100);
    let order_id = order.id;
    OrderOperations::add_order(&mut book, order).unwrap();

    let events =
        OrderOperations::modify_order(&mut book, &order_id, Some(9900), None).unwrap();
    assert_eq!(events.len(), 1);
    assert!(matches!(events[0], MarketEvent::OrderModified { .. }));
    assert_eq!(book.best_bid(), Some(9900));
    assert_eq!(book.total_orders(), 1);
}

#[test]
fn test_replace_order() {
    let mut book = OrderBook::new("TEST".to_string());

    let order = create_test_order(Side::Buy, 10000, 100);
    let order_id = order.id;
    OrderOperations::add_order(&mut book, order).unwrap();

    let replacement = create_test_order(Side::Buy, 10100, 50);
    let events = OrderOperations::replace_order(&mut book, &order_id, replacement).unwrap();
    assert_eq!(events.len(), 2);
    assert_eq!(book.best_bid(), Some(10100));
    assert_eq!(book.total_orders(), 1);
}

#[test]
fn test_batches() {
    let mut book = OrderBook::new("TEST".to_string());

    let orders = vec![
        create_test_order(Side::Buy, 10000, 100),
        create_test_order(Side::Sell, 10100, 50),
    ];
    let ids: Vec<u128> = orders.iter().map(|o| o.id).collect();
    let results = BatchOperations::process_batch(&mut book, orders);
    assert_eq!(results.len(), 2);
    assert!(results.iter().all(|r| r.is_ok()));

    let cancels = BatchOperations::cancel_batch(&mut book, ids);
    assert_eq!(cancels.len(), 2);
    assert!(cancels.iter().all(|r| r.is_ok()));
    assert_eq!(book.total_orders(), 0);
}

#[test]
fn test_module_exports() {
    let _book = orderbook::OrderBook::new("TEST".to_string());
    let _order = orderbook::Order::new_limit("TEST".to_string(), orderbook::Side::Buy, 10000, 100, None);
    let _error = orderbook::OrderBookError::OrderNotFound;
}

use orderbook::book::OrderBook;
use orderbook::types::MarketEvent;
use orderbook::types::Order;
use orderbook::types::Price;
use orderbook::types::Quantity;
use orderbook::types::Side;

fn create_limit_order(side: Side, price: Price, quantity: Quantity) -> Order {
    Order::new_limit("TEST".to_string(), side, price, quantity, None)
}

fn create_market_order(side: Side, quantity: Quantity) -> Order {
    Order::new_market("TEST".to_string(), side, quantity, None)
}

#[test]
fn test_empty_book() {
    let book = OrderBook::new("TEST".to_string());
    assert_eq!(book.best_bid(), None);
    assert_eq!(book.best_ask(), None);
    assert_eq!(book.spread(), None);
    assert_eq!(book.total_orders(), 0);
}

#[test]
fn test_add_limit_orders() {
    let mut book = OrderBook::new("TEST".to_string());

    let buy_order = create_limit_order(Side::Buy, 10000, 100);
    let events = book.add_limit_order(buy_order).unwrap();
    assert_eq!(events.len(), 1);

    let sell_order = create_limit_order(Side::Sell, 10100, 100);
    let events = book.add_limit_order(sell_order).unwrap();
    assert_eq!(events.len(), 1);

    assert_eq!(book.best_bid(), Some(10000));
    assert_eq!(book.best_ask(), Some(10100));
    assert_eq!(book.spread(), Some(100));
    assert_eq!(book.total_orders(), 2);
}

#[test]
fn test_order_matching() {
    let mut book = OrderBook::new("TEST".to_string());

    let sell_order = create_limit_order(Side::Sell, 10000, 100);
    book.add_limit_order(sell_order).unwrap();

    let buy_order = create_limit_order(Side::Buy, 10000, 50);
    let events = book.add_limit_order(buy_order).unwrap();

    assert_eq!(events.len(), 1);
    if let MarketEvent::Trade { trade } = &events[0] {
        assert_eq!(trade.price, 10000);
        assert_eq!(trade.quantity, 50);
    } else {
        panic!("Expected trade event");
    }

    assert_eq!(book.total_orders(), 1);
    assert_eq!(book.best_ask(), Some(10000));
}

#[test]
fn test_market_order() {
    let mut book = OrderBook::new("TEST".to_string());

    book.add_limit_order(create_limit_order(Side::Sell, 10000, 50)).unwrap();
    book.add_limit_order(create_limit_order(Side::Sell, 10100, 50)).unwrap();

    let market_order = create_market_order(Side::Buy, 75);
    let events = book.add_market_order(market_order).unwrap();

    assert_eq!(events.len(), 2);

    if let MarketEvent::Trade { trade } = &events[0] {
        assert_eq!(trade.price, 10000);
        assert_eq!(trade.quantity, 50);
    }

    if let MarketEvent::Trade { trade } = &events[1] {
        assert_eq!(trade.price, 10100);
        assert_eq!(trade.quantity, 25);
    }
}

#[test]
fn book_test_cancel_order() {
    let mut book = OrderBook::new("TEST".to_string());

    let order = create_limit_order(Side::Buy, 10000, 100);
    let order_id = order.id;

    book.add_limit_order(order).unwrap();
    assert_eq!(book.total_orders(), 1);

    let event = book.cancel_order(&order_id).unwrap();
    if let MarketEvent::OrderCancelled { order_id: cancelled_id, remaining_quantity } = event {
        assert_eq!(cancelled_id, order_id);
        assert_eq!(remaining_quantity, 100);
    }

    assert_eq!(book.total_orders(), 0);
    assert_eq!(book.best_bid(), None);
}

#[test]
fn book_test_modify_order_quantity() {
    let mut book = OrderBook::new("TEST".to_string());

    let order = create_limit_order(Side::Buy, 10000, 100);
    let order_id = order.id;

    book.add_limit_order(order).unwrap();

    let event = book.modify_order_quantity(&order_id, 150).unwrap();
    if let MarketEvent::OrderModified { order_id: modified_id, new_quantity, .. } = event {
        assert_eq!(modified_id, order_id);
        assert_eq!(new_quantity, Some(150));
    }
}

#[test]
fn test_price_time_priority() {
    let mut book = OrderBook::new("TEST".to_string());

    let order1 = create_limit_order(Side::Buy, 10000, 100);
    let order2 = create_limit_order(Side::Buy, 10000, 200);
    let order1_id = order1.id;
    let order2_id = order2.id;

    book.add_limit_order(order1).unwrap();
    book.add_limit_order(order2).unwrap();

    // a crossing sell for 150 fully exhausts the older order first, then
    // takes 50 from the younger one
    let sell_order = create_limit_order(Side::Sell, 10000, 150);
    let events = book.add_limit_order(sell_order).unwrap();

    assert_eq!(events.len(), 2);
    if let MarketEvent::Trade { trade } = &events[0] {
        assert_eq!(trade.quantity, 100);
        assert_eq!(trade.buyer_order_id, order1_id);
    } else {
        panic!("Expected trade event");
    }
    if let MarketEvent::Trade { trade } = &events[1] {
        assert_eq!(trade.quantity, 50);
        assert_eq!(trade.buyer_order_id, order2_id);
    } else {
        panic!("Expected trade event");
    }

    assert_eq!(book.total_orders(), 1);
    assert_eq!(book.best_bid(), Some(10000));
}

use orderbook::matching::MatchingEngine;
use orderbook::matching::TradeContext;
use orderbook::price_level::PriceLevel;
use orderbook::types::Order;
use orderbook::types::OrderStatus;
use orderbook::types::OrderType;
use orderbook::types::Price;
use orderbook::types::Quantity;
use orderbook::types::Side;

fn create_test_order(id: u128, side: Side, price: Price, quantity: Quantity, order_type: OrderType) -> Order {
    Order {
        id,
        symbol: "TEST".to_string(),
        side,
        order_type,
        price,
        original_quantity: quantity,
        remaining_quantity: quantity,
        filled_quantity: 0,
        status: OrderStatus::New,
        timestamp: 0,
        client_id: None,
    }
}

#[test]
fn test_validate_order_for_matching() {
    let order = create_test_order(1, Side::Buy, 10000, 100, OrderType::Limit);
    assert!(MatchingEngine::validate_order_for_matching(&order).is_ok());

    let market_order = create_test_order(2, Side::Buy, 0, 100, OrderType::Market);
    assert!(MatchingEngine::validate_order_for_matching(&market_order).is_ok());

    let invalid_order = create_test_order(3, Side::Buy, 0, 100, OrderType::Limit);
    assert!(MatchingEngine::validate_order_for_matching(&invalid_order).is_err());
}

#[test]
fn test_calculate_available_quantity() {
    let mut levels: Vec<PriceLevel> = Vec::new();
    let mut level1 = PriceLevel::new(10000);
    level1.add_order(create_test_order(1, Side::Sell, 10000, 100, OrderType::Limit));
    levels.push(level1);
    let mut level2 = PriceLevel::new(10100);
    level2.add_order(create_test_order(2, Side::Sell, 10100, 100, OrderType::Limit));
    levels.push(level2);

    let buy_order = create_test_order(3, Side::Buy, 10050, 250, OrderType::Limit);
    let available = MatchingEngine::calculate_available_quantity(&buy_order, &levels);

    // only the first level is price-eligible for a 10050 buyer
    assert_eq!(available, 100);

    let buy_order_high = create_test_order(4, Side::Buy, 10200, 250, OrderType::Limit);
    let available_high = MatchingEngine::calculate_available_quantity(&buy_order_high, &levels);

    assert_eq!(available_high, 200);
}

#[test]
fn test_is_self_trade() {
    let mut order1 = create_test_order(1, Side::Buy, 10000, 100, OrderType::Limit);
    order1.client_id = Some("client1".to_string());
    let mut order2 = create_test_order(2, Side::Sell, 10000, 100, OrderType::Limit);
    order2.client_id = Some("client1".to_string());
    let mut order3 = create_test_order(3, Side::Sell, 10000, 100, OrderType::Limit);
    order3.client_id = Some("client2".to_string());

    assert!(MatchingEngine::is_self_trade(&order1, &order2));
    assert!(!MatchingEngine::is_self_trade(&order1, &order3));
}

#[test]
fn test_trade_context() {
    let mut context = TradeContext::new("TEST".to_string());

    context.update(Some(9950), Some(10050), Some(10000));

    assert_eq!(context.best_bid, Some(9950));
    assert_eq!(context.best_ask, Some(10050));
    assert_eq!(context.last_trade_price, Some(10000));
    assert_eq!(context.mid_price(), Some(10000));
    assert_eq!(context.spread(), Some(100));
}

#[test]
fn test_calculate_trade_price_is_passive() {
    let aggressive = create_test_order(1, Side::Buy, 10100, 10, OrderType::Limit);
    let passive = create_test_order(2, Side::Sell, 10000, 10, OrderType::Limit);
    assert_eq!(MatchingEngine::calculate_trade_price(&aggressive, &passive), 10000);
}

#[test]
fn test_should_cleanup_level() {
    let mut level = PriceLevel::new(10000);
    assert!(MatchingEngine::should_cleanup_level(&level));
    level.add_order(create_test_order(1, Side::Sell, 10000, 5, OrderType::Limit));
    assert!(!MatchingEngine::should_cleanup_level(&level));
}

//! End-to-end scenarios over the public surface of the book.

use orderbook::book::OrderBook;
use orderbook::error::OrderBookError;
use orderbook::metrics::OrderBookMetrics;
use orderbook::types::MarketEvent;
use orderbook::types::Order;
use orderbook::types::OrderStatus;
use orderbook::types::OrderType;
use orderbook::types::Price;
use orderbook::types::Quantity;
use orderbook::types::Side;

fn limit(side: Side, price: Price, quantity: Quantity) -> Order {
    Order::new_limit("TEST".to_string(), side, price, quantity, None)
}

fn book() -> OrderBook {
    OrderBook::new("TEST".to_string())
}

fn ioc(side: Side, price: Price, quantity: Quantity) -> Order {
    let mut o = limit(side, price, quantity);
    o.order_type = OrderType::ImmediateOrCancel;
    o
}

fn fok(side: Side, price: Price, quantity: Quantity) -> Order {
    let mut o = limit(side, price, quantity);
    o.order_type = OrderType::FillOrKill;
    o
}

#[test]
fn scenario_empty_book_limit_rest() {
    let mut b = book();
    let events = b.add_limit_order(limit(Side::Buy, 10000, 100)).unwrap();
    assert_eq!(events.len(), 1);
    assert!(matches!(events[0], MarketEvent::OrderAdded { .. }));
    assert_eq!(b.best_bid(), Some(10000));
    assert_eq!(b.best_ask(), None);
    assert_eq!(b.total_orders(), 1);
}

#[test]
fn scenario_exact_cross() {
    let mut b = book();
    b.add_limit_order(limit(Side::Buy, 10000, 100)).unwrap();
    let events = b.add_limit_order(limit(Side::Sell, 10000, 100)).unwrap();
    assert_eq!(events.len(), 1);
    if let MarketEvent::Trade { trade } = &events[0] {
        assert_eq!(trade.price, 10000);
        assert_eq!(trade.quantity, 100);
    } else {
        panic!("Expected trade event");
    }
    assert_eq!(b.total_orders(), 0);
    assert_eq!(b.best_bid(), None);
    assert_eq!(b.best_ask(), None);
}

#[test]
fn scenario_partial_cross_of_aggressor() {
    let mut b = book();
    b.add_limit_order(limit(Side::Buy, 10000, 100)).unwrap();
    let events = b.add_limit_order(limit(Side::Sell, 10000, 30)).unwrap();
    assert_eq!(events.len(), 1);
    if let MarketEvent::Trade { trade } = &events[0] {
        assert_eq!(trade.price, 10000);
        assert_eq!(trade.quantity, 30);
    } else {
        panic!("Expected trade event");
    }
    assert_eq!(b.best_bid(), Some(10000));
    assert_eq!(b.total_orders(), 1);
}

#[test]
fn scenario_partial_cross_of_resting() {
    let mut b = book();
    b.add_limit_order(limit(Side::Sell, 10000, 50)).unwrap();
    b.add_limit_order(limit(Side::Sell, 10100, 50)).unwrap();
    let events = b
        .add_market_order(Order::new_market("TEST".to_string(), Side::Buy, 75, None))
        .unwrap();
    assert_eq!(events.len(), 2);
    if let MarketEvent::Trade { trade } = &events[0] {
        assert_eq!(trade.price, 10000);
        assert_eq!(trade.quantity, 50);
    } else {
        panic!("Expected trade event");
    }
    if let MarketEvent::Trade { trade } = &events[1] {
        assert_eq!(trade.price, 10100);
        assert_eq!(trade.quantity, 25);
    } else {
        panic!("Expected trade event");
    }
    assert_eq!(b.best_ask(), Some(10100));
}

#[test]
fn scenario_market_with_empty_book() {
    let mut b = book();
    let r = b.add_market_order(Order::new_market("TEST".to_string(), Side::Buy, 10, None));
    assert_eq!(r.unwrap_err(), OrderBookError::NoLiquidity);
    assert_eq!(b.total_orders(), 0);
}

#[test]
fn scenario_fok_insufficient() {
    let mut b = book();
    b.add_limit_order(limit(Side::Sell, 10000, 40)).unwrap();
    let events = b.add_fok_order(fok(Side::Buy, 10000, 100)).unwrap();
    assert_eq!(events.len(), 0);
    let snapshot = b.snapshot();
    assert_eq!(snapshot.asks.len(), 1);
    assert_eq!(snapshot.asks[0].price, 10000);
    assert_eq!(snapshot.asks[0].quantity, 40);
}

#[test]
fn scenario_fok_sufficient() {
    let mut b = book();
    b.add_limit_order(limit(Side::Sell, 10000, 60)).unwrap();
    b.add_limit_order(limit(Side::Sell, 10050, 60)).unwrap();
    let events = b.add_fok_order(fok(Side::Buy, 10050, 100)).unwrap();
    assert_eq!(events.len(), 2);
    assert_eq!(b.total_orders(), 1);
    assert_eq!(b.best_ask(), Some(10050));
}

#[test]
fn scenario_time_priority() {
    let mut b = book();
    let a = limit(Side::Buy, 10000, 100);
    let a_id = a.id;
    let c = limit(Side::Buy, 10000, 200);
    let c_id = c.id;
    b.add_limit_order(a).unwrap();
    b.add_limit_order(c).unwrap();
    let events = b.add_limit_order(limit(Side::Sell, 10000, 150)).unwrap();
    assert_eq!(events.len(), 2);
    if let MarketEvent::Trade { trade } = &events[0] {
        assert_eq!(trade.quantity, 100);
        assert_eq!(trade.buyer_order_id, a_id);
    } else {
        panic!("Expected trade event");
    }
    if let MarketEvent::Trade { trade } = &events[1] {
        assert_eq!(trade.quantity, 50);
        assert_eq!(trade.buyer_order_id, c_id);
    } else {
        panic!("Expected trade event");
    }
}

#[test]
fn scenario_price_priority_buy_walks_up() {
    let mut b = book();
    b.add_limit_order(limit(Side::Sell, 10200, 10)).unwrap();
    b.add_limit_order(limit(Side::Sell, 10000, 10)).unwrap();
    b.add_limit_order(limit(Side::Sell, 10100, 10)).unwrap();
    // the first fill is at the minimum ask and prices never decrease
    let events = b.add_limit_order(limit(Side::Buy, 10200, 25)).unwrap();
    assert_eq!(events.len(), 3);
    let mut prices: Vec<u64> = Vec::new();
    for e in &events {
        if let MarketEvent::Trade { trade } = e {
            prices.push(trade.price);
        }
    }
    assert_eq!(prices, vec![10000, 10100, 10200]);
}

#[test]
fn scenario_ioc_residual_dropped() {
    let mut b = book();
    b.add_limit_order(limit(Side::Sell, 10000, 30)).unwrap();
    let events = b.add_ioc_order(ioc(Side::Buy, 10000, 100)).unwrap();
    assert_eq!(events.len(), 1);
    if let MarketEvent::Trade { trade } = &events[0] {
        assert_eq!(trade.quantity, 30);
    } else {
        panic!("Expected trade event");
    }
    // nothing rests: the residual 70 was dropped, not added
    assert_eq!(b.total_orders(), 0);
    assert_eq!(b.best_bid(), None);
}

#[test]
fn scenario_add_cancel_round_trip() {
    let mut b = book();
    b.add_limit_order(limit(Side::Buy, 9900, 10)).unwrap();
    b.add_limit_order(limit(Side::Sell, 10100, 10)).unwrap();
    let bid0 = b.best_bid();
    let ask0 = b.best_ask();
    let count0 = b.total_orders();

    let o = limit(Side::Buy, 10000, 5);
    let id = o.id;
    b.add_limit_order(o).unwrap();
    b.cancel_order(&id).unwrap();

    assert_eq!(b.best_bid(), bid0);
    assert_eq!(b.best_ask(), ask0);
    assert_eq!(b.total_orders(), count0);
}

#[test]
fn scenario_volume_conservation() {
    let mut b = book();
    b.add_limit_order(limit(Side::Sell, 10000, 50)).unwrap();
    b.add_limit_order(limit(Side::Sell, 10100, 50)).unwrap();
    let depth_before: u64 =
        b.snapshot().asks.iter().map(|l| l.quantity).sum();
    b.add_limit_order(limit(Side::Buy, 10100, 70)).unwrap();
    let depth_after: u64 = b.snapshot().asks.iter().map(|l| l.quantity).sum();
    let stats = b.get_stats();
    // the traded volume equals the reduction in opposing depth
    assert_eq!(stats.total_volume, depth_before - depth_after);
    assert_eq!(stats.total_volume, 70);
    assert_eq!(stats.total_trades, 2);
    assert_eq!(stats.last_trade_price, Some(10100));
}

#[test]
fn scenario_duplicate_order_rejected() {
    let mut b = book();
    let o = limit(Side::Buy, 10000, 10);
    let mut copy = limit(Side::Buy, 10000, 10);
    copy.id = o.id;
    b.add_limit_order(o).unwrap();
    let r = b.add_limit_order(copy);
    assert_eq!(r.unwrap_err(), OrderBookError::DuplicateOrder);
}

#[test]
fn scenario_invalid_inputs() {
    let mut b = book();
    let mut wrong_symbol = limit(Side::Buy, 10000, 10);
    wrong_symbol.symbol = "OTHER".to_string();
    assert_eq!(b.add_limit_order(wrong_symbol).unwrap_err(), OrderBookError::InvalidSymbol);

    let mut zero_price = limit(Side::Buy, 0, 10);
    zero_price.price = 0;
    assert_eq!(b.add_limit_order(zero_price).unwrap_err(), OrderBookError::InvalidPrice);

    let zero_qty = limit(Side::Buy, 10000, 0);
    assert_eq!(b.add_limit_order(zero_qty).unwrap_err(), OrderBookError::InvalidQuantity);

    let mut stale = limit(Side::Buy, 10000, 10);
    stale.status = OrderStatus::Cancelled;
    assert_eq!(b.add_limit_order(stale).unwrap_err(), OrderBookError::InvalidOrderState);

    let market_as_limit = Order::new_market("TEST".to_string(), Side::Buy, 10, None);
    assert_eq!(b.add_limit_order(market_as_limit).unwrap_err(), OrderBookError::InvalidOrderType);

    let r = b.cancel_order(&12345u128);
    assert_eq!(r.unwrap_err(), OrderBookError::OrderNotFound);

    let r = b.modify_order_quantity(&12345u128, 0);
    assert_eq!(r.unwrap_err(), OrderBookError::InvalidQuantity);
}

#[test]
fn scenario_metrics_counters() {
    let mut m = OrderBookMetrics::new();
    m.increment_orders_added();
    m.increment_orders_added();
    m.increment_orders_cancelled();
    m.increment_trades_executed(50, 500000);
    m.time_add_order(1200);
    assert_eq!(m.get_orders_added(), 2);
    assert_eq!(m.get_orders_cancelled(), 1);
    assert_eq!(m.get_trades_executed(), 1);
    assert_eq!(m.get_total_volume(), 50);
    assert_eq!(m.get_total_notional(), 500000);
    let stats = m.get_latency_stats();
    assert_eq!(stats.add_order.samples, 1);
    assert_eq!(stats.add_order.min_nanos, 1200);
    assert_eq!(stats.add_order.max_nanos, 1200);
}

#[test]
fn scenario_latency_tracker_aggregates() {
    let mut t = orderbook::metrics::LatencyTracker::new("add_order");
    t.record_latency(100);
    t.record_latency(300);
    t.record_latency(200);
    let s = t.get_stats();
    assert_eq!(s.samples, 3);
    assert_eq!(s.min_nanos, 100);
    assert_eq!(s.max_nanos, 300);
    assert_eq!(s.avg_nanos, 200);
}

#[test]
fn scenario_latency_collector_stats() {
    let mut c = orderbook::collectors::LatencyCollector::new(0);
    c.record(100);
    c.record(200);
    c.record(300);
    let stats = c.calculate_stats();
    assert_eq!(stats.count, 3);
    assert_eq!(stats.min, 100);
    assert_eq!(stats.max, 300);
    assert_eq!(stats.mean, 200);
}

#[test]
fn scenario_throughput_collector_counts() {
    let mut c = orderbook::collectors::ThroughputCollector::new(0);
    c.increment();
    c.add(5);
    assert_eq!(c.total(), 6);
    let stats = c.collect().unwrap();
    assert_eq!(stats.operations, 6);
    assert_eq!(stats.total, 6);
}

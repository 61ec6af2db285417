//! Counters and latency aggregates for the order book operations.

use vstd::prelude::*;
use vstd::string::StringExecFns;

verus! {

/// Latency aggregate for one operation, in nanoseconds.
#[derive(Debug)]
pub struct OperationLatencyStats {
    pub operation: String,
    pub samples: u64,
    pub avg_nanos: u64,
    pub min_nanos: u64,
    pub max_nanos: u64,
}

/// Running latency aggregates for one operation.
#[derive(Debug)]
pub struct LatencyTracker {
    /// The operation this tracker measures.
    pub operation: String,
    /// Number of samples recorded.
    pub samples: u64,
    /// Total nanoseconds over all samples (wrapping on overflow).
    pub total_nanos: u64,
    /// Smallest sample seen; the maximum integer before the first sample.
    pub min_nanos: u64,
    /// Largest sample seen.
    pub max_nanos: u64,
}

impl LatencyTracker {
    /// A fresh tracker for one operation.
    pub fn new(operation: &str) -> (r: LatencyTracker)
        ensures
            r.operation@ == operation@,
            r.samples == 0,
            r.total_nanos == 0,
            r.min_nanos == u64::MAX,
            r.max_nanos == 0,
    {
        LatencyTracker {
            operation: String::from_str(operation),
            samples: 0,
            total_nanos: 0,
            min_nanos: u64::MAX,
            max_nanos: 0,
        }
    }

    /// Record one latency sample.
    pub fn record_latency(&mut self, nanos: u64)
        ensures
            final(self).operation == old(self).operation,
            final(self).samples == vstd::wrapping::u64_specs::wrapping_add(old(self).samples, 1),
            final(self).total_nanos == vstd::wrapping::u64_specs::wrapping_add(
                old(self).total_nanos,
                nanos,
            ),
            final(self).min_nanos == if nanos < old(self).min_nanos {
                nanos
            } else {
                old(self).min_nanos
            },
            final(self).max_nanos == if nanos > old(self).max_nanos {
                nanos
            } else {
                old(self).max_nanos
            },
    {
        self.samples = self.samples.wrapping_add(1);
        self.total_nanos = self.total_nanos.wrapping_add(nanos);
        if nanos < self.min_nanos {
            self.min_nanos = nanos;
        }
        if nanos > self.max_nanos {
            self.max_nanos = nanos;
        }
    }

    /// The aggregate so far: average, smallest, and largest sample.
    pub fn get_stats(&self) -> (r: OperationLatencyStats)
        ensures
            r.operation@ == self.operation@,
            r.samples == self.samples,
            r.avg_nanos == if self.samples > 0 {
                (self.total_nanos / self.samples) as int
            } else {
                0
            },
            r.min_nanos == if self.min_nanos == u64::MAX {
                0
            } else {
                self.min_nanos as int
            },
            r.max_nanos == self.max_nanos,
    {
        let avg = if self.samples > 0 {
            self.total_nanos / self.samples
        } else {
            0
        };
        let min = if self.min_nanos == u64::MAX {
            0
        } else {
            self.min_nanos
        };
        OperationLatencyStats {
            operation: self.operation.clone(),
            samples: self.samples,
            avg_nanos: avg,
            min_nanos: min,
            max_nanos: self.max_nanos,
        }
    }
}

/// Latency aggregates for the four main operations.
#[derive(Debug)]
pub struct LatencyStats {
    pub add_order: OperationLatencyStats,
    pub cancel_order: OperationLatencyStats,
    pub modify_order: OperationLatencyStats,
    pub match_order: OperationLatencyStats,
}

/// Counters and latency trackers for one order book.
#[derive(Debug)]
pub struct OrderBookMetrics {
    /// Latency aggregates per operation.
    pub add_order_latency: LatencyTracker,
    pub cancel_order_latency: LatencyTracker,
    pub modify_order_latency: LatencyTracker,
    pub match_order_latency: LatencyTracker,
    /// Throughput counters.
    pub orders_added: u64,
    pub orders_cancelled: u64,
    pub orders_modified: u64,
    pub trades_executed: u64,
    /// Book state gauges.
    pub total_orders: u64,
    pub bid_levels: u64,
    pub ask_levels: u64,
    pub spread_ticks: u64,
    pub best_bid: u64,
    pub best_ask: u64,
    /// Volume gauges.
    pub total_volume: u64,
    pub total_notional: u64,
}

impl OrderBookMetrics {
    /// All counters at zero.
    pub fn new() -> (r: OrderBookMetrics)
        ensures
            r.orders_added == 0,
            r.orders_cancelled == 0,
            r.orders_modified == 0,
            r.trades_executed == 0,
            r.total_orders == 0,
            r.total_volume == 0,
            r.total_notional == 0,
    {
        OrderBookMetrics {
            add_order_latency: LatencyTracker::new("add_order"),
            cancel_order_latency: LatencyTracker::new("cancel_order"),
            modify_order_latency: LatencyTracker::new("modify_order"),
            match_order_latency: LatencyTracker::new("match_order"),
            orders_added: 0,
            orders_cancelled: 0,
            orders_modified: 0,
            trades_executed: 0,
            total_orders: 0,
            bid_levels: 0,
            ask_levels: 0,
            spread_ticks: 0,
            best_bid: 0,
            best_ask: 0,
            total_volume: 0,
            total_notional: 0,
        }
    }

    /// Record the latency of one add operation.
    pub fn time_add_order(&mut self, nanos: u64)
        ensures
            final(self).add_order_latency.samples == vstd::wrapping::u64_specs::wrapping_add(
                old(self).add_order_latency.samples,
                1,
            ),
    {
        self.add_order_latency.record_latency(nanos);
    }

    /// Record the latency of one cancel operation.
    pub fn time_cancel_order(&mut self, nanos: u64)
        ensures
            final(self).cancel_order_latency.samples == vstd::wrapping::u64_specs::wrapping_add(
                old(self).cancel_order_latency.samples,
                1,
            ),
    {
        self.cancel_order_latency.record_latency(nanos);
    }

    /// Record the latency of one modify operation.
    pub fn time_modify_order(&mut self, nanos: u64)
        ensures
            final(self).modify_order_latency.samples == vstd::wrapping::u64_specs::wrapping_add(
                old(self).modify_order_latency.samples,
                1,
            ),
    {
        self.modify_order_latency.record_latency(nanos);
    }

    /// Record the latency of one matching pass.
    pub fn time_match_order(&mut self, nanos: u64)
        ensures
            final(self).match_order_latency.samples == vstd::wrapping::u64_specs::wrapping_add(
                old(self).match_order_latency.samples,
                1,
            ),
    {
        self.match_order_latency.record_latency(nanos);
    }

    /// Count one added order.
    pub fn increment_orders_added(&mut self)
        ensures
            final(self).orders_added == vstd::wrapping::u64_specs::wrapping_add(
                old(self).orders_added,
                1,
            ),
            final(self).orders_cancelled == old(self).orders_cancelled,
            final(self).trades_executed == old(self).trades_executed,
    {
        self.orders_added = self.orders_added.wrapping_add(1);
    }

    /// Count one cancelled order.
    pub fn increment_orders_cancelled(&mut self)
        ensures
            final(self).orders_cancelled == vstd::wrapping::u64_specs::wrapping_add(
                old(self).orders_cancelled,
                1,
            ),
            final(self).orders_added == old(self).orders_added,
    {
        self.orders_cancelled = self.orders_cancelled.wrapping_add(1);
    }

    /// Count one modified order.
    pub fn increment_orders_modified(&mut self)
        ensures
            final(self).orders_modified == vstd::wrapping::u64_specs::wrapping_add(
                old(self).orders_modified,
                1,
            ),
    {
        self.orders_modified = self.orders_modified.wrapping_add(1);
    }

    /// Count one executed trade with its quantity and notional value.
    pub fn increment_trades_executed(&mut self, quantity: u64, notional: u64)
        ensures
            final(self).trades_executed == vstd::wrapping::u64_specs::wrapping_add(
                old(self).trades_executed,
                1,
            ),
            final(self).total_volume == vstd::wrapping::u64_specs::wrapping_add(
                old(self).total_volume,
                quantity,
            ),
            final(self).total_notional == vstd::wrapping::u64_specs::wrapping_add(
                old(self).total_notional,
                notional,
            ),
    {
        self.trades_executed = self.trades_executed.wrapping_add(1);
        self.total_volume = self.total_volume.wrapping_add(quantity);
        self.total_notional = self.total_notional.wrapping_add(notional);
    }

    /// Set the current number of resting orders.
    pub fn set_total_orders(&mut self, count: u64)
        ensures
            final(self).total_orders == count,
    {
        self.total_orders = count;
    }

    /// Set the current number of bid levels.
    pub fn set_bid_levels(&mut self, count: u64)
        ensures
            final(self).bid_levels == count,
    {
        self.bid_levels = count;
    }

    /// Set the current number of ask levels.
    pub fn set_ask_levels(&mut self, count: u64)
        ensures
            final(self).ask_levels == count,
    {
        self.ask_levels = count;
    }

    /// Set the current spread in ticks.
    pub fn set_spread(&mut self, spread_ticks: u64)
        ensures
            final(self).spread_ticks == spread_ticks,
    {
        self.spread_ticks = spread_ticks;
    }

    /// Set the current best bid price.
    pub fn set_best_bid(&mut self, price: u64)
        ensures
            final(self).best_bid == price,
    {
        self.best_bid = price;
    }

    /// Set the current best ask price.
    pub fn set_best_ask(&mut self, price: u64)
        ensures
            final(self).best_ask == price,
    {
        self.best_ask = price;
    }

    /// Orders added so far.
    pub fn get_orders_added(&self) -> (r: u64)
        ensures
            r == self.orders_added,
    {
        self.orders_added
    }

    /// Orders cancelled so far.
    pub fn get_orders_cancelled(&self) -> (r: u64)
        ensures
            r == self.orders_cancelled,
    {
        self.orders_cancelled
    }

    /// Orders modified so far.
    pub fn get_orders_modified(&self) -> (r: u64)
        ensures
            r == self.orders_modified,
    {
        self.orders_modified
    }

    /// Trades executed so far.
    pub fn get_trades_executed(&self) -> (r: u64)
        ensures
            r == self.trades_executed,
    {
        self.trades_executed
    }

    /// Quantity traded so far.
    pub fn get_total_volume(&self) -> (r: u64)
        ensures
            r == self.total_volume,
    {
        self.total_volume
    }

    /// Notional value traded so far.
    pub fn get_total_notional(&self) -> (r: u64)
        ensures
            r == self.total_notional,
    {
        self.total_notional
    }

    /// The latency aggregates of all four operations.
    pub fn get_latency_stats(&self) -> (r: LatencyStats)
        ensures
            r.add_order.samples == self.add_order_latency.samples,
            r.cancel_order.samples == self.cancel_order_latency.samples,
            r.modify_order.samples == self.modify_order_latency.samples,
            r.match_order.samples == self.match_order_latency.samples,
    {
        LatencyStats {
            add_order: self.add_order_latency.get_stats(),
            cancel_order: self.cancel_order_latency.get_stats(),
            modify_order: self.modify_order_latency.get_stats(),
            match_order: self.match_order_latency.get_stats(),
        }
    }
}

impl Default for OrderBookMetrics {
    /// The default metrics: all counters at zero.
    fn default() -> (r: OrderBookMetrics)
        ensures
            r.orders_added == 0,
            r.trades_executed == 0,
    {
        OrderBookMetrics::new()
    }
}

} // verus!

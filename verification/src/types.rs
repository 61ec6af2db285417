//! Value types of the engine: orders, trades, events, and their invariants.

use vstd::prelude::*;

use crate::time::wall_clock_nanos;

verus! {

/// Globally unique 128-bit order identifier.
pub type OrderId = u128;

/// Price in ticks; zero is the sentinel "no price" used by market orders.
pub type Price = u64;

/// Quantity in units; zero means "exhausted".
pub type Quantity = u64;

/// Relies on uuid::Uuid::new_v4 and uuid::Uuid::as_u128: a freshly generated
/// random 128-bit identifier. Nothing can be promised of a random value.
#[verifier::external_body]
pub(crate) fn fresh_order_id() -> OrderId {
    uuid::Uuid::new_v4().as_u128()
}

#[derive(Debug, Clone, Copy, PartialEq, Eq, Structural)]
pub enum Side {
    Buy,
    Sell,
}

/// The side a resting order must be on to trade against `side`.
pub open spec fn opposite(side: Side) -> Side {
    match side {
        Side::Buy => Side::Sell,
        Side::Sell => Side::Buy,
    }
}

/// The opposite side of the book.
pub fn opposite_side(side: Side) -> (r: Side)
    ensures
        r == opposite(side),
{
    match side {
        Side::Buy => Side::Sell,
        Side::Sell => Side::Buy,
    }
}

#[derive(Debug, Clone, Copy, PartialEq, Eq, Structural)]
pub enum OrderType {
    Market,
    Limit,
    Stop,
    StopLimit { stop_price: Price },
    ImmediateOrCancel,
    FillOrKill,
}

#[derive(Debug, Clone, Copy, PartialEq, Eq, Structural)]
pub enum OrderStatus {
    New,
    PartiallyFilled,
    Filled,
    Cancelled,
    Rejected,
    Expired,
}

/// An order submitted to, or resting in, the book.
#[derive(Debug)]
pub struct Order {
    pub id: OrderId,
    pub symbol: String,
    pub side: Side,
    pub order_type: OrderType,
    pub price: Price,
    pub original_quantity: Quantity,
    pub remaining_quantity: Quantity,
    pub filled_quantity: Quantity,
    pub status: OrderStatus,
    /// Nanoseconds since the Unix epoch at creation time.
    pub timestamp: u64,
    pub client_id: Option<String>,
}

/// The order `o` after filling `f` units (meaningful when `f <= o.remaining_quantity`).
pub open spec fn spec_filled(o: Order, f: Quantity) -> Order {
    Order {
        remaining_quantity: (o.remaining_quantity - f) as Quantity,
        filled_quantity: (o.filled_quantity + f) as Quantity,
        status: if o.remaining_quantity == f {
            OrderStatus::Filled
        } else {
            OrderStatus::PartiallyFilled
        },
        ..o
    }
}

impl Order {
    /// The quantity bookkeeping invariant: what was asked equals what was
    /// filled plus what is left.
    pub open spec fn quantities_ok(self) -> bool {
        self.original_quantity == self.filled_quantity + self.remaining_quantity
    }

    /// The terminal statuses: no further fills can happen.
    pub open spec fn spec_is_terminal(self) -> bool {
        match self.status {
            OrderStatus::Filled => true,
            OrderStatus::Cancelled => true,
            OrderStatus::Rejected => true,
            OrderStatus::Expired => true,
            OrderStatus::New => false,
            OrderStatus::PartiallyFilled => false,
        }
    }

    /// A freshly created, not yet submitted order: nothing filled yet.
    pub open spec fn spec_is_fresh(self) -> bool {
        &&& self.status == OrderStatus::New
        &&& self.filled_quantity == 0
        &&& self.remaining_quantity == self.original_quantity
    }

    /// Create a new limit order with a fresh identifier and the current time.
    pub fn new_limit(
        symbol: String,
        side: Side,
        price: Price,
        quantity: Quantity,
        client_id: Option<String>,
    ) -> (r: Order)
        ensures
            r.symbol == symbol,
            r.side == side,
            r.order_type == OrderType::Limit,
            r.price == price,
            r.original_quantity == quantity,
            r.remaining_quantity == quantity,
            r.filled_quantity == 0,
            r.status == OrderStatus::New,
            r.client_id == client_id,
            r.spec_is_fresh(),
            r.quantities_ok(),
    {
        Order {
            id: fresh_order_id(),
            symbol,
            side,
            order_type: OrderType::Limit,
            price,
            original_quantity: quantity,
            remaining_quantity: quantity,
            filled_quantity: 0,
            status: OrderStatus::New,
            timestamp: wall_clock_nanos(),
            client_id,
        }
    }

    /// Create a new market order: no price, fresh identifier, current time.
    pub fn new_market(
        symbol: String,
        side: Side,
        quantity: Quantity,
        client_id: Option<String>,
    ) -> (r: Order)
        ensures
            r.symbol == symbol,
            r.side == side,
            r.order_type == OrderType::Market,
            r.price == 0,
            r.original_quantity == quantity,
            r.remaining_quantity == quantity,
            r.filled_quantity == 0,
            r.status == OrderStatus::New,
            r.client_id == client_id,
            r.spec_is_fresh(),
            r.quantities_ok(),
    {
        Order {
            id: fresh_order_id(),
            symbol,
            side,
            order_type: OrderType::Market,
            price: 0,
            original_quantity: quantity,
            remaining_quantity: quantity,
            filled_quantity: 0,
            status: OrderStatus::New,
            timestamp: wall_clock_nanos(),
            client_id,
        }
    }

    /// Fill `quantity` units: move them from remaining to filled and update
    /// the status. Rejects a fill beyond the remaining quantity.
    pub fn fill(&mut self, quantity: Quantity) -> (r: Result<(), &'static str>)
        requires
            old(self).quantities_ok(),
        ensures
            match r {
                Ok(()) => quantity <= old(self).remaining_quantity && *final(self) == spec_filled(
                    *old(self),
                    quantity,
                ),
                Err(_) => quantity > old(self).remaining_quantity && *final(self) == *old(self),
            },
            final(self).quantities_ok(),
    {
        if quantity > self.remaining_quantity {
            return Err("Cannot fill more than remaining quantity");
        }
        self.remaining_quantity = self.remaining_quantity - quantity;
        self.filled_quantity = self.filled_quantity + quantity;
        if self.remaining_quantity == 0 {
            self.status = OrderStatus::Filled;
        } else {
            self.status = OrderStatus::PartiallyFilled;
        }
        Ok(())
    }

    /// Mark the order cancelled.
    pub fn cancel(&mut self)
        ensures
            *final(self) == (Order { status: OrderStatus::Cancelled, ..*old(self) }),
    {
        self.status = OrderStatus::Cancelled;
    }

    /// Whether the order is in a terminal state.
    pub fn is_complete(&self) -> (r: bool)
        ensures
            r == self.spec_is_terminal(),
    {
        match self.status {
            OrderStatus::Filled => true,
            OrderStatus::Cancelled => true,
            OrderStatus::Rejected => true,
            OrderStatus::Expired => true,
            OrderStatus::New => false,
            OrderStatus::PartiallyFilled => false,
        }
    }
}

impl Clone for Order {
    /// A clone is equal to the original.
    fn clone(&self) -> (res: Order)
        ensures
            res == *self,
    {
        let symbol = self.symbol.clone();
        let client_id = match &self.client_id {
            Some(c) => Some(c.clone()),
            None => None,
        };
        Order {
            id: self.id,
            symbol,
            side: self.side,
            order_type: self.order_type,
            price: self.price,
            original_quantity: self.original_quantity,
            remaining_quantity: self.remaining_quantity,
            filled_quantity: self.filled_quantity,
            status: self.status,
            timestamp: self.timestamp,
            client_id,
        }
    }
}

/// A fill between one buyer order and one seller order.
#[derive(Debug)]
pub struct Trade {
    pub id: u128,
    pub symbol: String,
    pub buyer_order_id: OrderId,
    pub seller_order_id: OrderId,
    pub price: Price,
    pub quantity: Quantity,
    /// Nanoseconds since the Unix epoch at execution time.
    pub timestamp: u64,
}

impl Trade {
    /// Create a trade record with a fresh identifier and the current time.
    pub fn new(
        symbol: String,
        buyer_order_id: OrderId,
        seller_order_id: OrderId,
        price: Price,
        quantity: Quantity,
    ) -> (r: Trade)
        ensures
            r.symbol == symbol,
            r.buyer_order_id == buyer_order_id,
            r.seller_order_id == seller_order_id,
            r.price == price,
            r.quantity == quantity,
    {
        Trade {
            id: fresh_order_id(),
            symbol,
            buyer_order_id,
            seller_order_id,
            price,
            quantity,
            timestamp: wall_clock_nanos(),
        }
    }
}

impl Clone for Trade {
    /// A clone is equal to the original.
    fn clone(&self) -> (res: Trade)
        ensures
            res == *self,
    {
        Trade {
            id: self.id,
            symbol: self.symbol.clone(),
            buyer_order_id: self.buyer_order_id,
            seller_order_id: self.seller_order_id,
            price: self.price,
            quantity: self.quantity,
            timestamp: self.timestamp,
        }
    }
}

/// Where a resting order lives: its price level and side.
#[derive(Debug, Clone, Copy, PartialEq, Eq, Structural)]
pub struct OrderLocation {
    pub price: Price,
    pub side: Side,
}

/// Aggregate depth of one price level, as reported in snapshots.
#[derive(Debug, Clone, Copy, PartialEq, Eq, Structural)]
pub struct PriceLevelInfo {
    pub price: Price,
    pub quantity: Quantity,
    pub order_count: u32,
}

/// A consistent view of the whole book at one moment.
#[derive(Debug)]
pub struct BookSnapshot {
    pub symbol: String,
    /// Nanoseconds since the Unix epoch at capture time.
    pub timestamp: u64,
    /// Levels sorted by price, best (highest) first.
    pub bids: Vec<PriceLevelInfo>,
    /// Levels sorted by price, best (lowest) first.
    pub asks: Vec<PriceLevelInfo>,
    pub last_trade_price: Option<Price>,
}

/// One market event per public effect of the engine.
#[derive(Debug)]
pub enum MarketEvent {
    OrderAdded { order: Order },
    OrderCancelled { order_id: OrderId, remaining_quantity: Quantity },
    OrderModified { order_id: OrderId, new_price: Option<Price>, new_quantity: Option<Quantity> },
    Trade { trade: Trade },
    BookSnapshot { snapshot: BookSnapshot },
}

} // verus!

//! Order handling on top of the book: submissions of every type, cancels,
//! in-place and price-changing modifications, and batches.

use vstd::prelude::*;

use crate::book::OrderBook;
use crate::book::add_fok_post;
use crate::book::add_ioc_post;
use crate::book::add_limit_ok;
use crate::book::add_limit_post;
use crate::book::add_market_post;
use crate::book::cancel_post;
use crate::book::limit_reject;
use crate::book::modify_post;
use crate::book::remove_from_side;
use crate::book::side_has_price;
use crate::book::side_price_idx;
use crate::book::side_level_idx;
use crate::book::lemma_remove_side;
use crate::book::lemma_remove_side_sums;
use crate::error::OrderBookError;
use crate::matching::side_has_id;
use crate::matching::side_price_of;
use crate::matching::lemma_side_price_unique;
use crate::price_level::has_id;
use crate::price_level::idx_of;
use crate::price_level::resting_ok;
use crate::price_level::sum_remaining;
use crate::types::MarketEvent;
use crate::types::Order;
use crate::types::OrderId;
use crate::types::OrderStatus;
use crate::types::OrderType;
use crate::types::Price;
use crate::types::Quantity;
use crate::types::Side;
use crate::types::opposite;

verus! {

/// What submitting any order does: the book dispatches on the order type.
pub open spec fn add_order_post(
    book0: OrderBook,
    book1: OrderBook,
    order: Order,
    r: Result<Vec<MarketEvent>, OrderBookError>,
) -> bool {
    match order.order_type {
        OrderType::Limit => add_limit_post(book0, book1, order, r),
        OrderType::Market => add_market_post(book0, book1, order, r),
        OrderType::ImmediateOrCancel => add_ioc_post(book0, book1, order, r),
        OrderType::FillOrKill => add_fok_post(book0, book1, order, r),
        OrderType::Stop => r matches Err(e) && e == OrderBookError::InvalidOrderType && book1
            == book0,
        OrderType::StopLimit { .. } => r matches Err(e) && e == OrderBookError::InvalidOrderType
            && book1 == book0,
    }
}

/// The fresh order a price-changing modification resubmits: the same
/// identifier and side, the new price, and the unfilled remainder as a fresh
/// limit quantity.
pub open spec fn replacement_order(
    book: OrderBook,
    o: Order,
    new_price: Price,
    new_quantity: Option<Quantity>,
) -> Order {
    let rem = match new_quantity {
        Some(q) => (q - o.filled_quantity) as Quantity,
        None => o.remaining_quantity,
    };
    Order {
        symbol: book.symbol,
        price: new_price,
        order_type: OrderType::Limit,
        original_quantity: rem,
        remaining_quantity: rem,
        filled_quantity: 0,
        status: OrderStatus::New,
        ..o
    }
}

/// The resting order a modification addresses.
pub open spec fn resting_order_of(book: OrderBook, order_id: OrderId) -> Order {
    let loc = book.locations.spec_loc(order_id);
    let own = book.side_model(loc.side);
    let q = own[side_level_idx(own, order_id)].1;
    q[idx_of(q, order_id)]
}

/// Why a price-changing modification is rejected, if it is.
pub open spec fn modify_price_reject(
    book: OrderBook,
    order_id: OrderId,
    new_price: Price,
    new_quantity: Option<Quantity>,
) -> Option<OrderBookError> {
    if !book.locations.spec_has(order_id) {
        Some(OrderBookError::OrderNotFound)
    } else if new_price == 0 {
        Some(OrderBookError::InvalidPrice)
    } else if new_quantity matches Some(q) && q <= resting_order_of(book, order_id).filled_quantity {
        Some(OrderBookError::InvalidQuantity)
    } else if side_has_price(book.side_model(resting_order_of(book, order_id).side), new_price)
        && sum_remaining(
        book.side_model(resting_order_of(book, order_id).side)[side_price_idx(
            book.side_model(resting_order_of(book, order_id).side),
            new_price,
        )].1,
    ) + replacement_order(book, resting_order_of(book, order_id), new_price, new_quantity)
        .remaining_quantity > u64::MAX {
        Some(OrderBookError::OrderTooLarge)
    } else {
        None
    }
}

/// A price-changing modification behaves as: silently remove the resting
/// order, then submit its unfilled remainder as a fresh limit order with the
/// same identifier at the new price (losing time priority, possibly crossing
/// the book); the final added event is reported as a modification.
pub open spec fn modify_price_post(
    book0: OrderBook,
    book1: OrderBook,
    order_id: OrderId,
    new_price: Price,
    new_quantity: Option<Quantity>,
    r: Result<Vec<MarketEvent>, OrderBookError>,
) -> bool {
    match modify_price_reject(book0, order_id, new_price, new_quantity) {
        Some(e) => r matches Err(e2) && e2 == e && book1 == book0,
        None => {
            let o = resting_order_of(book0, order_id);
            let fresh = replacement_order(book0, o, new_price, new_quantity);
            &&& r matches Ok(events) && modified_events_shape(
                book0,
                book1,
                o,
                fresh,
                events@,
                new_price,
                new_quantity,
            )
        },
    }
}

/// The shape of the events and state after the remove-and-resubmit: the book
/// went through the removal and then through an accepted limit submission of
/// `fresh`, except that a final added event is replaced by a modified event.
#[verifier::opaque]
pub open spec fn modified_events_shape(
    book0: OrderBook,
    book1: OrderBook,
    o: Order,
    fresh: Order,
    events: Seq<MarketEvent>,
    new_price: Price,
    new_quantity: Option<Quantity>,
) -> bool {
    let loc = book0.locations.spec_loc(o.id);
    let own_mid = remove_from_side(book0.side_model(loc.side), o.id);
    let opp_mid = book0.side_model(opposite(loc.side));
    let fills = crate::matching::match_fills(
        opp_mid,
        fresh.side,
        fresh.price,
        false,
        fresh.remaining_quantity,
    );
    let agg = crate::matching::matched_aggressor(fresh, opp_mid, false);
    let rested = agg.remaining_quantity > 0;
    let n = fills.len() as int;
    &&& events.len() == n + if rested {
        1int
    } else {
        0
    }
    &&& forall|i: int|
        0 <= i < n ==> ((#[trigger] events[i]) matches MarketEvent::Trade { trade }
            && crate::matching::trade_matches_fill(trade, fresh, fills[i]))
    &&& (rested ==> events[events.len() - 1] == (MarketEvent::OrderModified {
        order_id: o.id,
        new_price: Some(new_price),
        new_quantity: new_quantity,
    }))
    &&& book1.side_model(opposite(loc.side)) == crate::matching::levels_after_match(
        opp_mid,
        fresh.side,
        fresh.price,
        false,
        fresh.remaining_quantity,
    )
    &&& book1.side_model(loc.side) == if rested {
        crate::book::insert_into_side(own_mid, fresh.side, agg)
    } else {
        own_mid
    }
    &&& forall|x: OrderId|
        #![trigger book1.locations.spec_has(x)]
        book1.locations.spec_has(x) <==> (((book0.locations.spec_has(x) && x != o.id)
            && !crate::matching::spec_fully_filled(fills, x)) || (rested && x == o.id))
}

/// Order handling helpers over one book.
pub struct OrderOperations;

impl OrderOperations {
    /// Submit an order of any type, dispatching on the order type; stop
    /// orders are rejected untouched.
    pub fn add_order(book: &mut OrderBook, order: Order) -> (r: Result<
        Vec<MarketEvent>,
        OrderBookError,
    >)
        requires
            old(book).inv(),
        ensures
            final(book).inv(),
            add_order_post(*old(book), *final(book), order, r),
    {
        match order.order_type {
            OrderType::Limit => book.add_limit_order(order),
            OrderType::Market => book.add_market_order(order),
            OrderType::ImmediateOrCancel => book.add_ioc_order(order),
            OrderType::FillOrKill => book.add_fok_order(order),
            OrderType::Stop => Err(OrderBookError::InvalidOrderType),
            OrderType::StopLimit { .. } => Err(OrderBookError::InvalidOrderType),
        }
    }

    /// Cancel a resting order.
    pub fn cancel_order(book: &mut OrderBook, order_id: &OrderId) -> (r: Result<
        MarketEvent,
        OrderBookError,
    >)
        requires
            old(book).inv(),
        ensures
            final(book).inv(),
            cancel_post(*old(book), *final(book), *order_id, r),
    {
        book.cancel_order(order_id)
    }

    /// Modify a resting order: a quantity-only change happens in place and
    /// keeps time priority; a price change removes and resubmits the order,
    /// losing time priority. With neither a price nor a quantity there is
    /// nothing to do.
    #[verifier::rlimit(100)]
    pub fn modify_order(
        book: &mut OrderBook,
        order_id: &OrderId,
        new_price: Option<Price>,
        new_quantity: Option<Quantity>,
    ) -> (r: Result<Vec<MarketEvent>, OrderBookError>)
        requires
            old(book).inv(),
        ensures
            final(book).inv(),
            match new_price {
                Some(p) => modify_price_post(
                    *old(book),
                    *final(book),
                    *order_id,
                    p,
                    new_quantity,
                    r,
                ),
                None => match new_quantity {
                    Some(q) => match r {
                        Ok(events) => events@.len() == 1 && modify_post(
                            *old(book),
                            *final(book),
                            *order_id,
                            q,
                            Ok(events@[0]),
                        ),
                        Err(e) => modify_post(
                            *old(book),
                            *final(book),
                            *order_id,
                            q,
                            Err(e),
                        ),
                    },
                    None => r matches Err(e) && e == OrderBookError::InvalidOrderState && *final(book)
                        == *old(book),
                },
            },
    {
        if let Some(price) = new_price {
            return Self::modify_order_with_price_change(book, order_id, price, new_quantity);
        }
        if let Some(quantity) = new_quantity {
            let ev = book.modify_order_quantity(order_id, quantity);
            match ev {
                Ok(event) => {
                    let mut events: Vec<MarketEvent> = Vec::new();
                    events.push(event);
                    return Ok(events);
                },
                Err(e) => {
                    return Err(e);
                },
            }
        }
        Err(OrderBookError::InvalidOrderState)
    }

    /// Remove the order, then resubmit its unfilled remainder as a fresh
    /// limit order with the same identifier at the new price.
    #[verifier::rlimit(100)]
    #[verifier::spinoff_prover]
    fn modify_order_with_price_change(
        book: &mut OrderBook,
        order_id: &OrderId,
        new_price: Price,
        new_quantity: Option<Quantity>,
    ) -> (r: Result<Vec<MarketEvent>, OrderBookError>)
        requires
            old(book).inv(),
        ensures
            final(book).inv(),
            modify_price_post(*old(book), *final(book), *order_id, new_price, new_quantity, r),
    {
        let ghost book0 = *old(book);
        let loc = match book.locations.locate(*order_id) {
            Some(l) => l,
            None => {
                return Err(OrderBookError::OrderNotFound);
            },
        };
        if new_price == 0 {
            return Err(OrderBookError::InvalidPrice);
        }
        let ghost own0 = book0.side_model(loc.side);
        proof {
            crate::book::lemma_distinct_prices(book.bids@, Side::Buy);
            crate::book::lemma_distinct_prices(book.asks@, Side::Sell);
            assert(side_has_id(own0, *order_id));
            assert(side_price_of(own0, *order_id) == loc.price);
            let li = side_level_idx(own0, *order_id);
            assert(0 <= li < own0.len() && has_id(own0[li].1, *order_id));
            lemma_side_price_unique(own0, li, *order_id);
            assert(own0[li].0 == loc.price);
            assert(crate::book::side_has_price(own0, loc.price));
        }
        let found = match loc.side {
            Side::Buy => crate::book::find_level_index(&book.bids, loc.price),
            Side::Sell => crate::book::find_level_index(&book.asks, loc.price),
        };
        let idx = match found {
            Some(i) => i,
            None => {
                proof {
                    assert(false);
                }
                return Err(OrderBookError::OrderNotFound);
            },
        };
        let ghost li = side_level_idx(own0, *order_id);
        proof {
            assert(li == idx as int) by {
                if loc.side == Side::Buy {
                    assert(own0[idx as int].0 == book0.bids@[idx as int].price);
                } else {
                    assert(own0[idx as int].0 == book0.asks@[idx as int].price);
                }
                if li != idx as int {
                    assert(crate::matching::level_before(loc.side, own0[li].0, own0[idx as int].0)
                        || crate::matching::level_before(
                        loc.side,
                        own0[idx as int].0,
                        own0[li].0,
                    ));
                }
            }
        }
        let existing = match loc.side {
            Side::Buy => book.bids[idx].get_order(order_id),
            Side::Sell => book.asks[idx].get_order(order_id),
        };
        let o = match existing {
            Some(o) => o,
            None => {
                proof {
                    assert(false);
                }
                return Err(OrderBookError::OrderNotFound);
            },
        };
        proof {
            assert(o == resting_order_of(book0, *order_id));
            assert(resting_ok(o, own0[li].0));
            assert(o.side == loc.side) by {
                if loc.side == Side::Buy {
                    assert(own0[li].1[idx_of(own0[li].1, *order_id)].side == Side::Buy);
                } else {
                    assert(own0[li].1[idx_of(own0[li].1, *order_id)].side == Side::Sell);
                }
            }
        }
        if let Some(q) = new_quantity {
            if q <= o.filled_quantity {
                return Err(OrderBookError::InvalidQuantity);
            }
        }
        let new_remaining = match new_quantity {
            Some(q) => q - o.filled_quantity,
            None => o.remaining_quantity,
        };
        // pre-check the aggregate bound at the new price, so that the
        // resubmission cannot fail after the removal
        let own_total = match o.side {
            Side::Buy => crate::book::level_total_at(&book.bids, new_price),
            Side::Sell => crate::book::level_total_at(&book.asks, new_price),
        };
        if let Some(t) = own_total {
            if new_remaining > u64::MAX - t {
                return Err(OrderBookError::OrderTooLarge);
            }
        }
        proof {
            assert(modify_price_reject(book0, *order_id, new_price, new_quantity) is None);
        }
        // remove silently; the cancellation event is not reported
        let cancel_result = book.cancel_order(order_id);
        proof {
            assert(cancel_result is Ok);
        }
        let ghost book_mid = *book;
        let fresh = Order {
            id: o.id,
            symbol: book.symbol.clone(),
            side: o.side,
            order_type: OrderType::Limit,
            price: new_price,
            original_quantity: new_remaining,
            remaining_quantity: new_remaining,
            filled_quantity: 0,
            status: OrderStatus::New,
            timestamp: o.timestamp,
            client_id: match &o.client_id {
                Some(c) => Some(c.clone()),
                None => None,
            },
        };
        proof {
            assert(fresh == replacement_order(book0, o, new_price, new_quantity));
            // the resubmission passes every check of the limit path
            assert(limit_reject(book_mid, fresh) is None) by {
                assert(fresh.symbol@ == book_mid.symbol@);
                assert(!book_mid.locations.spec_has(fresh.id));
                lemma_remove_side(own0, loc.side, *order_id);
                if side_has_price(book_mid.side_model(fresh.side), fresh.price) {
                    lemma_remove_side_sums(own0, loc.side, *order_id, fresh.price);
                }
            }
        }
        let ghost fresh_g = fresh;
        let ghost o_g = o;
        let added = book.add_limit_order(fresh);
        let mut events = match added {
            Ok(ev) => ev,
            Err(_) => {
                proof {
                    assert(false);
                }
                return Err(OrderBookError::OrderNotFound);
            },
        };
        let ghost before_swap = events@;
        let last = events.pop();
        match last {
            Some(ev) => {
                match ev {
                    MarketEvent::OrderAdded { order: _ } => {
                        events.push(MarketEvent::OrderModified {
                            order_id: *order_id,
                            new_price: Some(new_price),
                            new_quantity,
                        });
                    },
                    other => {
                        events.push(other);
                    },
                }
            },
            None => {
            },
        }
        proof {
            reveal(modified_events_shape);
            let opp_mid = book0.side_model(opposite(loc.side));
            let fills = crate::matching::match_fills(
                opp_mid,
                fresh_g.side,
                fresh_g.price,
                false,
                fresh_g.remaining_quantity,
            );
            let agg = crate::matching::matched_aggressor(fresh_g, opp_mid, false);
            let rested = agg.remaining_quantity > 0;
            assert(book_mid.side_model(opposite(loc.side)) == opp_mid);
            assert(add_limit_ok(book_mid, *book, fresh_g, before_swap));
            let n = fills.len() as int;
            if rested {
                assert(before_swap.len() == n + 1);
                assert(before_swap[n] == (MarketEvent::OrderAdded { order: agg }));
                assert(events@ =~= before_swap.take(n).push(
                    MarketEvent::OrderModified {
                        order_id: *order_id,
                        new_price: Some(new_price),
                        new_quantity,
                    },
                ));
                assert forall|i: int| 0 <= i < n implies ((#[trigger] events@[i])
                    matches MarketEvent::Trade { trade }
                    && crate::matching::trade_matches_fill(trade, fresh_g, fills[i])) by {
                    assert(events@[i] == before_swap[i]);
                }
            } else {
                assert(before_swap.len() == n);
                if n > 0 {
                    assert(events@ =~= before_swap.take(n - 1).push(before_swap[n - 1]));
                    assert(events@ =~= before_swap);
                } else {
                    assert(events@ =~= before_swap);
                }
                assert forall|i: int| 0 <= i < n implies ((#[trigger] events@[i])
                    matches MarketEvent::Trade { trade }
                    && crate::matching::trade_matches_fill(trade, fresh_g, fills[i])) by {
                    assert(events@[i] == before_swap[i]);
                }
            }
            assert(modified_events_shape(
                book0,
                *book,
                o_g,
                fresh_g,
                events@,
                new_price,
                new_quantity,
            ));
            assert(o_g == resting_order_of(book0, *order_id));
            assert(fresh_g == replacement_order(book0, o_g, new_price, new_quantity));
            assert(modified_events_shape(
                book0,
                *book,
                resting_order_of(book0, *order_id),
                replacement_order(
                    book0,
                    resting_order_of(book0, *order_id),
                    new_price,
                    new_quantity,
                ),
                events@,
                new_price,
                new_quantity,
            ));
        }
        Ok(events)
    }

    /// Cancel one order and submit another in its place. A missing old order
    /// is not an error: the new order is still submitted.
    pub fn replace_order(
        book: &mut OrderBook,
        old_order_id: &OrderId,
        new_order: Order,
    ) -> (r: Result<Vec<MarketEvent>, OrderBookError>)
        requires
            old(book).inv(),
        ensures
            final(book).inv(),
            r is Ok ==> (r matches Ok(events) && events@.len() >= if old(
                book,
            ).locations.spec_has(*old_order_id) {
                1int
            } else {
                0
            }),
    {
        let mut events: Vec<MarketEvent> = Vec::new();
        let cancelled = book.cancel_order(old_order_id);
        match cancelled {
            Ok(ev) => {
                events.push(ev);
            },
            Err(_) => {
            },
        }
        let added = Self::add_order(book, new_order);
        match added {
            Ok(mut more) => {
                events.append(&mut more);
                Ok(events)
            },
            Err(e) => Err(e),
        }
    }
}

/// Batched order handling.
pub struct BatchOperations;

impl BatchOperations {
    /// Submit a batch of orders in sequence, one result each.
    pub fn process_batch(book: &mut OrderBook, orders: Vec<Order>) -> (r: Vec<
        Result<Vec<MarketEvent>, OrderBookError>,
    >)
        requires
            old(book).inv(),
        ensures
            final(book).inv(),
            r@.len() == orders@.len(),
    {
        let mut results: Vec<Result<Vec<MarketEvent>, OrderBookError>> = Vec::new();
        let n = orders.len();
        let mut orders = orders;
        let mut i: usize = 0;
        while i < n
            invariant
                book.inv(),
                i <= n,
                orders@.len() == n - i,
                results@.len() == i,
            decreases n - i,
        {
            let order = orders.remove(0);
            results.push(OrderOperations::add_order(book, order));
            i = i + 1;
        }
        results
    }

    /// Cancel a batch of orders in sequence, one result each.
    pub fn cancel_batch(book: &mut OrderBook, order_ids: Vec<OrderId>) -> (r: Vec<
        Result<MarketEvent, OrderBookError>,
    >)
        requires
            old(book).inv(),
        ensures
            final(book).inv(),
            r@.len() == order_ids@.len(),
    {
        let mut results: Vec<Result<MarketEvent, OrderBookError>> = Vec::new();
        let n = order_ids.len();
        let mut i: usize = 0;
        while i < n
            invariant
                book.inv(),
                i <= n,
                n == order_ids@.len(),
                results@.len() == i,
            decreases n - i,
        {
            let id = order_ids[i];
            results.push(OrderOperations::cancel_order(book, &id));
            i = i + 1;
        }
        results
    }
}

} // verus!

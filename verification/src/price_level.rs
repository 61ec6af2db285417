//! One price level: a FIFO queue of resting orders with aggregate counters.

use vstd::prelude::*;

use crate::types::Order;
use crate::types::OrderId;
use crate::types::OrderStatus;
use crate::types::Price;
use crate::types::Quantity;
use crate::types::spec_filled;

verus! {

/// Total remaining quantity over a queue of orders.
pub open spec fn sum_remaining(q: Seq<Order>) -> int
    decreases q.len(),
{
    if q.len() == 0 {
        0
    } else {
        q[0].remaining_quantity + sum_remaining(q.drop_first())
    }
}

/// No two orders in the queue share an identifier.
pub open spec fn distinct_ids(q: Seq<Order>) -> bool {
    forall|i: int, j: int| 0 <= i < j < q.len() ==> q[i].id != q[j].id
}

/// Some order in the queue has this identifier.
pub open spec fn has_id(q: Seq<Order>, id: OrderId) -> bool {
    exists|i: int| 0 <= i < q.len() && q[i].id == id
}

/// An index of the order with this identifier (unique when ids are distinct).
pub open spec fn idx_of(q: Seq<Order>, id: OrderId) -> int {
    choose|i: int| 0 <= i < q.len() && q[i].id == id
}

/// What must hold of an order resting at a level with price `price`.
pub open spec fn resting_ok(o: Order, price: Price) -> bool {
    &&& o.quantities_ok()
    &&& o.remaining_quantity > 0
    &&& o.price == price
    &&& (o.status == OrderStatus::New || o.status == OrderStatus::PartiallyFilled)
    &&& (o.status == OrderStatus::PartiallyFilled <==> o.filled_quantity > 0)
}

/// Well-formedness of a resting queue at a given price.
pub open spec fn queue_wf(q: Seq<Order>, price: Price) -> bool {
    &&& forall|i: int| 0 <= i < q.len() ==> resting_ok(#[trigger] q[i], price)
    &&& distinct_ids(q)
}

/// The fills produced by taking up to `want` units from the front of `q`:
/// each pair holds the affected order *after* its fill and the fill amount.
pub open spec fn fills_of_queue(q: Seq<Order>, want: Quantity) -> Seq<(Order, Quantity)>
    decreases q.len(),
{
    if want == 0 || q.len() == 0 {
        Seq::empty()
    } else {
        let avail = q[0].remaining_quantity;
        let f = if want < avail {
            want
        } else {
            avail
        };
        if f == avail {
            seq![(spec_filled(q[0], f), f)] + fills_of_queue(q.drop_first(), (want - f) as Quantity)
        } else {
            seq![(spec_filled(q[0], f), f)]
        }
    }
}

/// The queue left after taking up to `want` units from the front of `q`.
pub open spec fn queue_after_take(q: Seq<Order>, want: Quantity) -> Seq<Order>
    decreases q.len(),
{
    if want == 0 || q.len() == 0 {
        q
    } else {
        let avail = q[0].remaining_quantity;
        if want >= avail {
            queue_after_take(q.drop_first(), (want - avail) as Quantity)
        } else {
            q.update(0, spec_filled(q[0], want))
        }
    }
}

/// Total quantity over a list of fills.
pub open spec fn fills_sum(fs: Seq<(Order, Quantity)>) -> int
    decreases fs.len(),
{
    if fs.len() == 0 {
        0
    } else {
        fs[0].1 + fills_sum(fs.drop_first())
    }
}

/// Appending an order adds its remaining quantity to the total.
pub proof fn lemma_sum_push(q: Seq<Order>, o: Order)
    ensures
        sum_remaining(q.push(o)) == sum_remaining(q) + o.remaining_quantity,
    decreases q.len(),
{
    if q.len() == 0 {
        assert(q.push(o).len() == 1);
        assert(q.push(o)[0] == o);
        assert(q.push(o).drop_first() =~= Seq::<Order>::empty());
        assert(sum_remaining(q.push(o).drop_first()) == 0);
    } else {
        assert(q.push(o)[0] == q[0]);
        assert(q.push(o).drop_first() =~= q.drop_first().push(o));
        lemma_sum_push(q.drop_first(), o);
    }
}

/// Removing the order at index `i` subtracts its remaining quantity.
pub proof fn lemma_sum_remove(q: Seq<Order>, i: int)
    requires
        0 <= i < q.len(),
    ensures
        sum_remaining(q.remove(i)) == sum_remaining(q) - q[i].remaining_quantity,
    decreases q.len(),
{
    if i == 0 {
        assert(q.remove(0) =~= q.drop_first());
    } else {
        assert(q.remove(i).drop_first() =~= q.drop_first().remove(i - 1));
        lemma_sum_remove(q.drop_first(), i - 1);
    }
}

/// Replacing the order at index `i` shifts the total by the difference.
pub proof fn lemma_sum_update(q: Seq<Order>, i: int, o: Order)
    requires
        0 <= i < q.len(),
    ensures
        sum_remaining(q.update(i, o)) == sum_remaining(q) - q[i].remaining_quantity
            + o.remaining_quantity,
    decreases q.len(),
{
    if i == 0 {
        assert(q.update(0, o).drop_first() =~= q.drop_first());
    } else {
        assert(q.update(i, o).drop_first() =~= q.drop_first().update(i - 1, o));
        lemma_sum_update(q.drop_first(), i - 1, o);
    }
}

/// The total remaining quantity is never negative, and bounds each element.
pub proof fn lemma_sum_nonneg(q: Seq<Order>)
    ensures
        sum_remaining(q) >= 0,
    decreases q.len(),
{
    if q.len() > 0 {
        lemma_sum_nonneg(q.drop_first());
    }
}

/// Taking from a well-formed queue takes exactly `min(want, total)` and leaves
/// the rest; the remaining queue is well formed.
pub proof fn lemma_take_totals(q: Seq<Order>, want: Quantity, price: Price)
    requires
        queue_wf(q, price),
    ensures
        fills_sum(fills_of_queue(q, want)) == if want <= sum_remaining(q) {
            want as int
        } else {
            sum_remaining(q)
        },
        sum_remaining(queue_after_take(q, want)) == sum_remaining(q) - fills_sum(
            fills_of_queue(q, want),
        ),
        queue_wf(queue_after_take(q, want), price),
        queue_after_take(q, want).len() <= q.len(),
    decreases q.len(),
{
    lemma_sum_nonneg(q);
    if want == 0 || q.len() == 0 {
    } else {
        let avail = q[0].remaining_quantity;
        assert(resting_ok(q[0], price));
        assert(queue_wf(q.drop_first(), price)) by {
            assert(forall|i: int|
                0 <= i < q.drop_first().len() ==> resting_ok(
                    #[trigger] q.drop_first()[i],
                    price,
                ));
        }
        if want >= avail {
            let f = avail;
            let rest_fills = fills_of_queue(q.drop_first(), (want - f) as Quantity);
            lemma_take_totals(q.drop_first(), (want - f) as Quantity, price);
            let fs = fills_of_queue(q, want);
            assert(fs == seq![(spec_filled(q[0], f), f)] + rest_fills);
            assert(fs.drop_first() =~= rest_fills);
            assert(fs[0].1 == f);
            assert(fills_sum(fs) == f + fills_sum(rest_fills));
            lemma_sum_nonneg(q.drop_first());
        } else {
            let o = spec_filled(q[0], want);
            lemma_sum_update(q, 0, o);
            lemma_sum_nonneg(q.drop_first());
            let fs = fills_of_queue(q, want);
            assert(fs == seq![(o, want)]);
            assert(fs.drop_first() =~= Seq::<(Order, Quantity)>::empty());
            assert(fills_sum(fs.drop_first()) == 0);
            assert(fills_sum(fs) == fs[0].1 + fills_sum(fs.drop_first()));
            assert(fills_sum(fs) == want);
            let q2 = q.update(0, o);
            assert forall|i: int| 0 <= i < q2.len() implies resting_ok(#[trigger] q2[i], price) by {
                if i != 0 {
                    assert(q2[i] == q[i]);
                }
            }
        }
    }
}

/// The shape of a take: the fills follow the queue in order (time priority),
/// every fill except possibly the last exhausts its order, and the queue that
/// remains is the untouched suffix, preceded by the partially filled order if
/// the last fill was partial.
#[verifier::rlimit(60)]
pub proof fn lemma_take_shape(q: Seq<Order>, want: Quantity, price: Price)
    requires
        queue_wf(q, price),
    ensures
        fills_of_queue(q, want).len() <= q.len(),
        forall|i: int|
            0 <= i < fills_of_queue(q, want).len() ==> #[trigger] fills_of_queue(q, want)[i].0
                == spec_filled(q[i], fills_of_queue(q, want)[i].1),
        forall|i: int|
            0 <= i < fills_of_queue(q, want).len() ==> 0 < #[trigger] fills_of_queue(q, want)[i].1
                <= q[i].remaining_quantity,
        forall|i: int|
            0 <= i < fills_of_queue(q, want).len() - 1 ==> #[trigger] fills_of_queue(
                q,
                want,
            )[i].0.remaining_quantity == 0,
        ({
            let fs = fills_of_queue(q, want);
            let k = fs.len() as int;
            queue_after_take(q, want) == if k > 0 && fs[k - 1].0.remaining_quantity > 0 {
                seq![fs[k - 1].0] + q.skip(k)
            } else {
                q.skip(k)
            }
        }),
    decreases q.len(),
{
    let fs = fills_of_queue(q, want);
    if want == 0 || q.len() == 0 {
        assert(q.skip(0) =~= q);
    } else {
        let avail = q[0].remaining_quantity;
        assert(resting_ok(q[0], price));
        assert(queue_wf(q.drop_first(), price)) by {
            assert(forall|i: int|
                0 <= i < q.drop_first().len() ==> resting_ok(
                    #[trigger] q.drop_first()[i],
                    price,
                ));
        }
        if want >= avail {
            let rest = fills_of_queue(q.drop_first(), (want - avail) as Quantity);
            lemma_take_shape(q.drop_first(), (want - avail) as Quantity, price);
            assert(fs =~= seq![(spec_filled(q[0], avail), avail)] + rest);
            assert(fs.drop_first() =~= rest);
            assert forall|i: int| 0 <= i < fs.len() implies #[trigger] fs[i].0 == spec_filled(
                q[i],
                fs[i].1,
            ) && 0 < fs[i].1 <= q[i].remaining_quantity by {
                if i > 0 {
                    assert(rest[i - 1] == fs[i]);
                    assert(q.drop_first()[i - 1] == q[i]);
                }
            }
            assert forall|i: int| 0 <= i < fs.len() - 1 implies #[trigger] fs[i].0
                .remaining_quantity == 0 by {
                if i > 0 {
                    assert(rest[i - 1] == fs[i]);
                }
            }
            let k = fs.len() as int;
            let krest = rest.len() as int;
            assert(k == krest + 1);
            assert(q.drop_first().skip(krest) =~= q.skip(k));
            if krest > 0 && rest[krest - 1].0.remaining_quantity > 0 {
                assert(fs[k - 1] == rest[krest - 1]);
                assert(seq![rest[krest - 1].0] + q.drop_first().skip(krest) =~= seq![fs[k - 1].0]
                    + q.skip(k));
            } else {
                if krest == 0 {
                    assert(fs[k - 1].0.remaining_quantity == 0);
                }
            }
        } else {
            let o = spec_filled(q[0], want);
            assert(fs =~= seq![(o, want)]);
            assert(o.remaining_quantity == avail - want);
            assert(o.remaining_quantity > 0);
            assert(queue_after_take(q, want) =~= seq![o] + q.skip(1));
        }
    }
}

/// A price level: orders in arrival order plus redundant aggregate counters.
#[derive(Debug)]
pub struct PriceLevel {
    /// The price shared by every order resting here.
    pub price: Price,
    /// Resting orders, oldest first.
    pub orders: Vec<Order>,
    /// Redundant aggregate: total remaining quantity over `orders`.
    pub total_quantity: u64,
    /// Redundant aggregate: number of orders in `orders`.
    pub order_count: usize,
}

impl PriceLevel {
    /// The resting orders, oldest first.
    pub open spec fn queue(self) -> Seq<Order> {
        self.orders@
    }

    /// The aggregate quantity counter.
    pub open spec fn spec_total(self) -> u64 {
        self.total_quantity
    }

    /// The aggregate order counter.
    pub open spec fn spec_count(self) -> usize {
        self.order_count
    }

    /// Counters agree with the queue and every order rests legitimately.
    pub open spec fn wf(self) -> bool {
        &&& self.spec_total() == sum_remaining(self.queue())
        &&& self.spec_count() == self.queue().len()
        &&& queue_wf(self.queue(), self.price)
    }

    /// An empty level at the given price.
    pub fn new(price: Price) -> (r: PriceLevel)
        ensures
            r.price == price,
            r.queue() =~= Seq::<Order>::empty(),
            r.wf(),
    {
        PriceLevel { price, orders: Vec::new(), total_quantity: 0, order_count: 0 }
    }

    /// Append an order at the queue tail (time priority by position).
    pub fn add_order(&mut self, order: Order)
        requires
            old(self).wf(),
            resting_ok(order, old(self).price),
            !has_id(old(self).queue(), order.id),
            sum_remaining(old(self).queue()) + order.remaining_quantity <= u64::MAX,
        ensures
            final(self).wf(),
            final(self).price == old(self).price,
            final(self).queue() == old(self).queue().push(order),
    {
        proof {
            lemma_sum_push(self.orders@, order);
            lemma_sum_nonneg(self.orders@);
        }
        let quantity = order.remaining_quantity;
        self.orders.push(order);
        self.total_quantity = self.total_quantity + quantity;
        self.order_count = self.orders.len();
        proof {
            let q = old(self).queue();
            let q2 = self.orders@;
            assert forall|i: int| 0 <= i < q2.len() implies resting_ok(
                #[trigger] q2[i],
                self.price,
            ) by {
                if i < q.len() {
                    assert(q2[i] == q[i]);
                }
            }
            assert forall|i: int, j: int| 0 <= i < j < q2.len() implies q2[i].id != q2[j].id by {
                if j < q.len() {
                } else {
                    assert(q2[j] == order);
                    assert(q2[i] == q[i]);
                    assert(!(q[i].id == order.id)) by {
                        if q[i].id == order.id {
                            assert(has_id(q, order.id));
                        }
                    }
                }
            }
        }
    }

    /// Remove the order with the given identifier, if present.
    pub fn remove_order(&mut self, order_id: &OrderId) -> (r: Option<Order>)
        requires
            old(self).wf(),
        ensures
            final(self).wf(),
            final(self).price == old(self).price,
            match r {
                Some(o) => {
                    &&& has_id(old(self).queue(), *order_id)
                    &&& o == old(self).queue()[idx_of(old(self).queue(), *order_id)]
                    &&& o.id == *order_id
                    &&& final(self).queue() == old(self).queue().remove(
                        idx_of(old(self).queue(), *order_id),
                    )
                },
                None => {
                    &&& !has_id(old(self).queue(), *order_id)
                    &&& *final(self) == *old(self)
                },
            },
    {
        let n = self.orders.len();
        let mut i: usize = 0;
        while i < n
            invariant
                n == self.orders.len(),
                i <= n,
                *self == *old(self),
                old(self).wf(),
                forall|j: int| 0 <= j < i ==> old(self).queue()[j].id != *order_id,
            decreases n - i,
        {
            if self.orders[i].id == *order_id {
                proof {
                    let q = self.orders@;
                    assert(q[i as int].id == *order_id);
                    assert(has_id(q, *order_id));
                    let k = idx_of(q, *order_id);
                    assert(0 <= k < q.len() && q[k].id == *order_id);
                    assert(k == i as int) by {
                        if k != i as int {
                            if k < i as int {
                                assert(q[k].id != q[i as int].id);
                            } else {
                                assert(q[i as int].id != q[k].id);
                            }
                        }
                    }
                    lemma_sum_remove(q, i as int);
                    lemma_sum_nonneg(q.remove(i as int));
                }
                let removed = self.orders.remove(i);
                self.total_quantity = self.total_quantity - removed.remaining_quantity;
                self.order_count = self.order_count - 1;
                proof {
                    let q = old(self).queue();
                    let q2 = self.orders@;
                    assert(q2 =~= q.remove(i as int));
                    assert forall|a: int| 0 <= a < q2.len() implies resting_ok(
                        #[trigger] q2[a],
                        self.price,
                    ) by {
                        if a < i as int {
                            assert(q2[a] == q[a]);
                        } else {
                            assert(q2[a] == q[a + 1]);
                        }
                    }
                    assert forall|a: int, b: int| 0 <= a < b < q2.len() implies q2[a].id
                        != q2[b].id by {
                        let a0 = if a < i as int {
                            a
                        } else {
                            a + 1
                        };
                        let b0 = if b < i as int {
                            b
                        } else {
                            b + 1
                        };
                        assert(q2[a] == q[a0]);
                        assert(q2[b] == q[b0]);
                    }
                }
                return Some(removed);
            }
            i = i + 1;
        }
        proof {
            let q = old(self).queue();
            assert(!has_id(q, *order_id)) by {
                if has_id(q, *order_id) {
                    let k = choose|k: int| 0 <= k < q.len() && q[k].id == *order_id;
                    assert(q[k].id != *order_id);
                }
            }
        }
        None
    }

    /// A copy of the order at the front of the queue, if any.
    pub fn peek_front(&self) -> (r: Option<Order>)
        ensures
            r == if self.queue().len() > 0 {
                Some(self.queue()[0])
            } else {
                Option::<Order>::None
            },
    {
        if self.orders.len() > 0 {
            Some(self.orders[0].clone())
        } else {
            None
        }
    }

    /// Take up to `requested_quantity` units from the front of the queue,
    /// filling resting orders in time priority. Returns each affected order
    /// (after its fill) with the amount taken from it.
    pub fn take_quantity(&mut self, requested_quantity: Quantity) -> (r: Vec<(Order, Quantity)>)
        requires
            old(self).wf(),
        ensures
            final(self).wf(),
            final(self).price == old(self).price,
            r@ == fills_of_queue(old(self).queue(), requested_quantity),
            final(self).queue() == queue_after_take(old(self).queue(), requested_quantity),
    {
        let ghost q0 = self.orders@;
        let ghost w0 = requested_quantity;
        let mut fills: Vec<(Order, Quantity)> = Vec::new();
        let mut want = requested_quantity;
        proof {
            assert(fills_of_queue(q0, w0) =~= fills@ + fills_of_queue(self.orders@, want));
        }
        while want > 0 && self.orders.len() > 0
            invariant
                self.wf(),
                self.price == old(self).price,
                fills_of_queue(q0, w0) == fills@ + fills_of_queue(self.orders@, want),
                queue_after_take(q0, w0) == queue_after_take(self.orders@, want),
            decreases self.orders.len() + want,
        {
            let ghost qc = self.orders@;
            let ghost fc = fills@;
            proof {
                assert(resting_ok(qc[0], self.price));
                lemma_sum_nonneg(qc.drop_first());
            }
            let mut front = self.orders.remove(0);
            proof {
                assert(self.orders@ =~= qc.drop_first());
            }
            let avail = front.remaining_quantity;
            let f = if want < avail {
                want
            } else {
                avail
            };
            front.remaining_quantity = front.remaining_quantity - f;
            front.filled_quantity = front.filled_quantity + f;
            if front.remaining_quantity == 0 {
                front.status = OrderStatus::Filled;
            } else {
                front.status = OrderStatus::PartiallyFilled;
            }
            proof {
                assert(front == spec_filled(qc[0], f));
            }
            let fill_record = front.clone();
            fills.push((fill_record, f));
            self.total_quantity = self.total_quantity - f;
            if front.remaining_quantity > 0 {
                // Partial fill: the order keeps its place at the front.
                self.orders.insert(0, front);
                want = want - f;
                self.order_count = self.order_count;
                proof {
                    let q2 = self.orders@;
                    assert(q2 =~= qc.update(0, spec_filled(qc[0], f)));
                    lemma_sum_update(qc, 0, spec_filled(qc[0], f));
                    // counters
                    assert(self.spec_total() == sum_remaining(q2));
                    assert(self.spec_count() == q2.len());
                    // queue well-formedness
                    assert forall|i: int| 0 <= i < q2.len() implies resting_ok(
                        #[trigger] q2[i],
                        self.price,
                    ) by {
                        if i != 0 {
                            assert(q2[i] == qc[i]);
                        }
                    }
                    assert forall|a: int, b: int| 0 <= a < b < q2.len() implies q2[a].id
                        != q2[b].id by {
                        assert(q2[a].id == qc[a].id);
                        assert(q2[b].id == qc[b].id);
                    }
                    // fills and queue bookkeeping: this was the final, partial fill
                    assert(f < qc[0].remaining_quantity);
                    assert(fills_of_queue(qc, (want + f) as Quantity) =~= seq![
                        (spec_filled(qc[0], f), f),
                    ]);
                    assert(fills@ =~= fc + seq![(spec_filled(qc[0], f), f)]);
                    assert(want == 0);
                    assert(fills_of_queue(q2, 0) =~= Seq::<(Order, Quantity)>::empty());
                    assert(fills@ + fills_of_queue(self.orders@, want) =~= fc + fills_of_queue(
                        qc,
                        (want + f) as Quantity,
                    ));
                    assert(queue_after_take(qc, (want + f) as Quantity) == q2);
                }
            } else {
                // Full fill: the order leaves the queue.
                want = want - f;
                self.order_count = self.order_count - 1;
                proof {
                    let q2 = self.orders@;
                    assert(f == qc[0].remaining_quantity);
                    assert(sum_remaining(qc) == f + sum_remaining(q2));
                    assert(self.spec_total() == sum_remaining(q2));
                    assert(self.spec_count() == q2.len());
                    assert forall|i: int| 0 <= i < q2.len() implies resting_ok(
                        #[trigger] q2[i],
                        self.price,
                    ) by {
                        assert(q2[i] == qc[i + 1]);
                    }
                    assert forall|a: int, b: int| 0 <= a < b < q2.len() implies q2[a].id
                        != q2[b].id by {
                        assert(q2[a].id == qc[a + 1].id);
                        assert(q2[b].id == qc[b + 1].id);
                    }
                    // fills bookkeeping: one full fill, then the tail continues
                    assert(fills_of_queue(qc, (want + f) as Quantity) =~= seq![
                        (spec_filled(qc[0], f), f),
                    ] + fills_of_queue(q2, want));
                    assert(fills@ =~= fc + seq![(spec_filled(qc[0], f), f)]);
                    assert(fills@ + fills_of_queue(q2, want) =~= fc + fills_of_queue(
                        qc,
                        (want + f) as Quantity,
                    ));
                    assert(queue_after_take(qc, (want + f) as Quantity) == queue_after_take(
                        q2,
                        want,
                    ));
                }
            }
        }
        proof {
            assert(fills_of_queue(self.orders@, want) =~= Seq::<(Order, Quantity)>::empty());
            assert(queue_after_take(self.orders@, want) == self.orders@);
            assert(fills@ =~= fills@ + Seq::<(Order, Quantity)>::empty());
        }
        fills
    }

    /// Replace the remaining quantity of the order with this identifier,
    /// keeping its queue position (time priority preserved). Returns the old
    /// remaining quantity. The order's original quantity is adjusted so the
    /// bookkeeping invariant keeps holding.
    pub fn modify_order_quantity(&mut self, order_id: &OrderId, new_quantity: Quantity) -> (r:
        Option<Quantity>)
        requires
            old(self).wf(),
            new_quantity > 0,
            sum_remaining(old(self).queue()) + new_quantity <= u64::MAX,
            has_id(old(self).queue(), *order_id) ==> old(self).queue()[idx_of(
                old(self).queue(),
                *order_id,
            )].filled_quantity + new_quantity <= u64::MAX,
        ensures
            final(self).wf(),
            final(self).price == old(self).price,
            match r {
                Some(old_qty) => {
                    &&& has_id(old(self).queue(), *order_id)
                    &&& ({
                        let q = old(self).queue();
                        let k = idx_of(q, *order_id);
                        &&& old_qty == q[k].remaining_quantity
                        &&& final(self).queue() == q.update(
                            k,
                            (Order {
                                remaining_quantity: new_quantity,
                                original_quantity: (q[k].filled_quantity + new_quantity) as u64,
                                ..q[k]
                            }),
                        )
                    })
                },
                None => {
                    &&& !has_id(old(self).queue(), *order_id)
                    &&& *final(self) == *old(self)
                },
            },
    {
        let n = self.orders.len();
        let mut i: usize = 0;
        while i < n
            invariant
                n == self.orders.len(),
                i <= n,
                *self == *old(self),
                old(self).wf(),
                new_quantity > 0,
                sum_remaining(old(self).queue()) + new_quantity <= u64::MAX,
                has_id(old(self).queue(), *order_id) ==> old(self).queue()[idx_of(
                    old(self).queue(),
                    *order_id,
                )].filled_quantity + new_quantity <= u64::MAX,
                forall|j: int| 0 <= j < i ==> old(self).queue()[j].id != *order_id,
            decreases n - i,
        {
            if self.orders[i].id == *order_id {
                proof {
                    let q = self.orders@;
                    assert(q[i as int].id == *order_id);
                    assert(has_id(q, *order_id));
                    let k = idx_of(q, *order_id);
                    assert(0 <= k < q.len() && q[k].id == *order_id);
                    assert(k == i as int) by {
                        if k < i as int {
                            assert(q[k].id != q[i as int].id);
                        }
                        if k > i as int {
                            assert(q[i as int].id != q[k].id);
                        }
                    }
                    assert(resting_ok(q[i as int], self.price));
                    lemma_sum_remove(q, i as int);
                    lemma_sum_nonneg(q.remove(i as int));
                }
                let mut order = self.orders.remove(i);
                let old_quantity = order.remaining_quantity;
                self.total_quantity = self.total_quantity - old_quantity;
                order.remaining_quantity = new_quantity;
                order.original_quantity = order.filled_quantity + new_quantity;
                self.orders.insert(i, order);
                self.total_quantity = self.total_quantity + new_quantity;
                proof {
                    let q = old(self).queue();
                    let k = i as int;
                    let o2 = Order {
                        remaining_quantity: new_quantity,
                        original_quantity: (q[k].filled_quantity + new_quantity) as u64,
                        ..q[k]
                    };
                    let q2 = self.orders@;
                    assert(q2 =~= q.update(k, o2));
                    lemma_sum_update(q, k, o2);
                    assert(self.spec_total() == sum_remaining(q2));
                    assert forall|a: int| 0 <= a < q2.len() implies resting_ok(
                        #[trigger] q2[a],
                        self.price,
                    ) by {
                        if a != k {
                            assert(q2[a] == q[a]);
                        } else {
                            assert(resting_ok(q[k], self.price));
                        }
                    }
                    assert forall|a: int, b: int| 0 <= a < b < q2.len() implies q2[a].id
                        != q2[b].id by {
                        assert(q2[a].id == q[a].id);
                        assert(q2[b].id == q[b].id);
                    }
                }
                return Some(old_quantity);
            }
            i = i + 1;
        }
        proof {
            let q = old(self).queue();
            assert(!has_id(q, *order_id)) by {
                if has_id(q, *order_id) {
                    let k = choose|k: int| 0 <= k < q.len() && q[k].id == *order_id;
                    assert(q[k].id != *order_id);
                }
            }
        }
        None
    }

    /// Total remaining quantity resting at this level.
    pub fn total_quantity(&self) -> (r: Quantity)
        ensures
            r == self.spec_total(),
    {
        self.total_quantity
    }

    /// Number of orders resting at this level.
    pub fn order_count(&self) -> (r: u32)
        ensures
            r == self.spec_count() as u32,
    {
        #[verifier::truncate] (self.order_count as u32)
    }

    /// Whether the queue is empty.
    pub fn is_empty(&self) -> (r: bool)
        ensures
            r == (self.spec_count() == 0),
            self.wf() ==> r == (self.queue().len() == 0),
    {
        self.order_count == 0
    }

    /// A copy of the resting order with this identifier, if present.
    pub fn get_order(&self, order_id: &OrderId) -> (r: Option<Order>)
        requires
            self.wf(),
        ensures
            match r {
                Some(o) => has_id(self.queue(), *order_id) && o == self.queue()[idx_of(
                    self.queue(),
                    *order_id,
                )],
                None => !has_id(self.queue(), *order_id),
            },
    {
        let n = self.orders.len();
        let mut i: usize = 0;
        while i < n
            invariant
                n == self.orders@.len(),
                i <= n,
                self.wf(),
                forall|j: int| 0 <= j < i ==> self.queue()[j].id != *order_id,
            decreases n - i,
        {
            if self.orders[i].id == *order_id {
                proof {
                    let q = self.queue();
                    assert(q[i as int].id == *order_id);
                    assert(has_id(q, *order_id));
                    let k = idx_of(q, *order_id);
                    assert(0 <= k < q.len() && q[k].id == *order_id);
                    assert(k == i as int) by {
                        if k < i as int {
                            assert(q[k].id != q[i as int].id);
                        }
                        if k > i as int {
                            assert(q[i as int].id != q[k].id);
                        }
                    }
                }
                return Some(self.orders[i].clone());
            }
            i = i + 1;
        }
        proof {
            let q = self.queue();
            if has_id(q, *order_id) {
                let k = choose|k: int| 0 <= k < q.len() && q[k].id == *order_id;
                assert(q[k].id != *order_id);
            }
        }
        None
    }

    /// Copies of all resting orders, oldest first.
    pub fn get_all_orders(&self) -> (r: Vec<Order>)
        ensures
            r@ == self.queue(),
    {
        let mut result: Vec<Order> = Vec::new();
        let n = self.orders.len();
        let mut i: usize = 0;
        while i < n
            invariant
                n == self.orders.len(),
                i <= n,
                result@ =~= self.queue().take(i as int),
            decreases n - i,
        {
            result.push(self.orders[i].clone());
            proof {
                assert(result@ =~= self.queue().take(i + 1));
            }
            i = i + 1;
        }
        proof {
            assert(self.queue().take(n as int) =~= self.queue());
        }
        result
    }

    /// Aggregate quantity and order count, as one reading.
    pub fn get_depth_info(&self) -> (r: (Quantity, u32))
        ensures
            r.0 == self.spec_total(),
            r.1 == self.spec_count() as u32,
    {
        (self.total_quantity, self.order_count())
    }
}

} // verus!

//! The matching engine: price-time priority traversal over the opposite side.

use vstd::prelude::*;

use crate::error::OrderBookError;
use crate::locations::LocationTable;
use crate::price_level::PriceLevel;
use crate::price_level::fills_of_queue;
use crate::price_level::fills_sum;
use crate::price_level::has_id;
use crate::price_level::queue_after_take;
use crate::price_level::queue_wf;
use crate::price_level::sum_remaining;
use crate::price_level::lemma_sum_nonneg;
use crate::price_level::lemma_take_totals;
use crate::price_level::lemma_take_shape;
use crate::types::Order;
use crate::types::OrderId;
use crate::types::OrderStatus;
use crate::types::OrderType;
use crate::types::Price;
use crate::types::Quantity;
use crate::types::Side;
use crate::types::Trade;
use crate::types::opposite;
use crate::types::spec_filled;

verus! {

/// The mathematical view of one price level: its price and its queue.
pub type LevelModel = (Price, Seq<Order>);

/// The mathematical view of one side of the book, best level first.
pub open spec fn side_view(levels: Seq<PriceLevel>) -> Seq<LevelModel> {
    levels.map_values(|l: PriceLevel| (l.price, l.queue()))
}

/// Whether an aggressor on `side` with limit price `limit` may trade at a
/// level priced `level_price`.
pub open spec fn spec_price_permits(side: Side, limit: Price, level_price: Price) -> bool {
    match side {
        Side::Buy => limit >= level_price,
        Side::Sell => limit <= level_price,
    }
}

/// Strict priority order of two level prices on a side holding `side` orders:
/// bids are kept highest first, asks lowest first.
pub open spec fn level_before(side: Side, a: Price, b: Price) -> bool {
    match side {
        Side::Buy => a > b,
        Side::Sell => a < b,
    }
}

/// Well-formedness of one side's model, for the side holding `side` orders:
/// levels are nonempty, have positive prices, hold well-formed queues of
/// orders of that side, and are sorted best price first.
pub open spec fn side_model_wf(levels: Seq<LevelModel>, side: Side) -> bool {
    &&& forall|i: int|
        0 <= i < levels.len() ==> queue_wf(#[trigger] levels[i].1, levels[i].0)
    &&& forall|i: int| 0 <= i < levels.len() ==> (#[trigger] levels[i].1.len()) > 0
    &&& forall|i: int| 0 <= i < levels.len() ==> (#[trigger] levels[i].0) > 0
    &&& forall|i: int, j: int|
        0 <= i < j < levels.len() ==> level_before(side, levels[i].0, levels[j].0)
    &&& forall|i: int, j: int|
        0 <= i < levels.len() && 0 <= j < levels[i].1.len() ==> (#[trigger] levels[i].1[j]).side
            == side
}

/// No identifier occurs twice anywhere on the side.
pub open spec fn side_distinct_ids(levels: Seq<LevelModel>) -> bool {
    forall|i: int, k: int, a: int, b: int|
        0 <= i < levels.len() && 0 <= k < levels.len() && 0 <= a < levels[i].1.len() && 0 <= b
            < levels[k].1.len() && (i != k || a != b) ==> (#[trigger] levels[i].1[a]).id != (
        #[trigger] levels[k].1[b]).id
}

/// Whether some order on the side has this identifier.
pub open spec fn side_has_id(levels: Seq<LevelModel>, id: OrderId) -> bool {
    exists|i: int| 0 <= i < levels.len() && has_id(#[trigger] levels[i].1, id)
}

/// The price of the level holding this identifier.
pub open spec fn side_price_of(levels: Seq<LevelModel>, id: OrderId) -> Price {
    levels[choose|i: int| 0 <= i < levels.len() && has_id(levels[i].1, id)].0
}

/// Total resting quantity over the whole side.
pub open spec fn side_depth(levels: Seq<LevelModel>) -> int
    decreases levels.len(),
{
    if levels.len() == 0 {
        0
    } else {
        sum_remaining(levels[0].1) + side_depth(levels.drop_first())
    }
}

/// Total resting quantity over the price-eligible prefix of the side.
pub open spec fn eligible_depth(
    levels: Seq<LevelModel>,
    side: Side,
    limit: Price,
    is_market: bool,
) -> int
    decreases levels.len(),
{
    if levels.len() == 0 {
        0
    } else if !is_market && !spec_price_permits(side, limit, levels[0].0) {
        0
    } else {
        sum_remaining(levels[0].1) + eligible_depth(levels.drop_first(), side, limit, is_market)
    }
}

/// Tag each fill of one level with the level's price.
pub open spec fn tag_price(p: Price, fs: Seq<(Order, Quantity)>) -> Seq<(Price, Order, Quantity)> {
    fs.map_values(|f: (Order, Quantity)| (p, f.0, f.1))
}

/// The fills produced by matching an aggressor (`side`, `limit`, `want`)
/// against the side model, levels in priority order: each fill holds the
/// level price, the resting order after its fill, and the quantity taken.
pub open spec fn match_fills(
    levels: Seq<LevelModel>,
    side: Side,
    limit: Price,
    is_market: bool,
    want: Quantity,
) -> Seq<(Price, Order, Quantity)>
    decreases levels.len(),
{
    if want == 0 || levels.len() == 0 {
        Seq::empty()
    } else if !is_market && !spec_price_permits(side, limit, levels[0].0) {
        Seq::empty()
    } else {
        let avail = sum_remaining(levels[0].1);
        let here = tag_price(levels[0].0, fills_of_queue(levels[0].1, want));
        if want >= avail {
            here + match_fills(levels.drop_first(), side, limit, is_market, (want - avail) as Quantity)
        } else {
            here
        }
    }
}

/// The side model left after the same matching pass.
pub open spec fn levels_after_match(
    levels: Seq<LevelModel>,
    side: Side,
    limit: Price,
    is_market: bool,
    want: Quantity,
) -> Seq<LevelModel>
    decreases levels.len(),
{
    if want == 0 || levels.len() == 0 {
        levels
    } else if !is_market && !spec_price_permits(side, limit, levels[0].0) {
        levels
    } else {
        let avail = sum_remaining(levels[0].1);
        if want >= avail {
            levels_after_match(levels.drop_first(), side, limit, is_market, (want - avail) as Quantity)
        } else {
            levels.update(0, (levels[0].0, queue_after_take(levels[0].1, want)))
        }
    }
}

/// Total quantity over a list of price-tagged fills.
pub open spec fn fills_total(fs: Seq<(Price, Order, Quantity)>) -> int
    decreases fs.len(),
{
    if fs.len() == 0 {
        0
    } else {
        fs[0].2 + fills_total(fs.drop_first())
    }
}

/// Whether a fill in the list exhausted the resting order with this identifier.
pub open spec fn spec_fully_filled(fs: Seq<(Price, Order, Quantity)>, id: OrderId) -> bool {
    exists|i: int| 0 <= i < fs.len() && fs[i].1.id == id && fs[i].1.remaining_quantity == 0
}

/// What a trade record must say about one fill of the aggressor `agg`.
pub open spec fn trade_matches_fill(t: Trade, agg: Order, fill: (Price, Order, Quantity)) -> bool {
    &&& t.symbol@ == agg.symbol@
    &&& t.price == fill.0
    &&& t.quantity == fill.2
    &&& match agg.side {
        Side::Buy => t.buyer_order_id == agg.id && t.seller_order_id == fill.1.id,
        Side::Sell => t.buyer_order_id == fill.1.id && t.seller_order_id == agg.id,
    }
}

/// The whole effect of one matching pass: the levels become the after-model,
/// the trades record the fills one for one, the aggressor absorbs the total,
/// and exactly the fully filled resting orders leave the location table.
pub open spec fn match_post(
    order0: Order,
    levels0: Seq<LevelModel>,
    levels1: Seq<LevelModel>,
    loc0: LocationTable,
    loc1: LocationTable,
    trades: Seq<Trade>,
    is_market: bool,
) -> bool {
    let fills = match_fills(levels0, order0.side, order0.price, is_market, order0.remaining_quantity);
    let total = fills_total(fills);
    &&& levels1 == levels_after_match(
        levels0,
        order0.side,
        order0.price,
        is_market,
        order0.remaining_quantity,
    )
    &&& trades.len() == fills.len()
    &&& forall|i: int| 0 <= i < fills.len() ==> trade_matches_fill(#[trigger] trades[i], order0, fills[i])
    &&& forall|x: OrderId|
        loc1.spec_has(x) <==> (loc0.spec_has(x) && !spec_fully_filled(fills, x))
    &&& forall|x: OrderId| loc1.spec_has(x) ==> loc1.spec_loc(x) == loc0.spec_loc(x)
    &&& (fills.len() == 0 ==> loc1 == loc0)
}

/// Well-formedness of one side of the book as stored: every level's counters
/// agree with its queue, and the model of the side is well formed for `side`.
pub open spec fn side_ok(levels: Seq<PriceLevel>, side: Side) -> bool {
    &&& forall|i: int| 0 <= i < levels.len() ==> (#[trigger] levels[i]).wf()
    &&& side_model_wf(side_view(levels), side)
    &&& side_distinct_ids(side_view(levels))
}

/// The fills of a matching pass take exactly `min(want, eligible depth)`.
pub proof fn lemma_match_totals(
    levels: Seq<LevelModel>,
    side: Side,
    limit: Price,
    is_market: bool,
    want: Quantity,
)
    requires
        forall|i: int| 0 <= i < levels.len() ==> queue_wf(#[trigger] levels[i].1, levels[i].0),
    ensures
        fills_total(match_fills(levels, side, limit, is_market, want)) == if want as int
            <= eligible_depth(levels, side, limit, is_market) {
            want as int
        } else {
            eligible_depth(levels, side, limit, is_market)
        },
        eligible_depth(levels, side, limit, is_market) >= 0,
    decreases levels.len(),
{
    if want == 0 || levels.len() == 0 {
        lemma_eligible_depth_nonneg(levels, side, limit, is_market);
    } else if !is_market && !spec_price_permits(side, limit, levels[0].0) {
        lemma_eligible_depth_nonneg(levels, side, limit, is_market);
    } else {
        let avail = sum_remaining(levels[0].1);
        lemma_sum_nonneg(levels[0].1);
        lemma_take_totals(levels[0].1, want, levels[0].0);
        let here_pairs = fills_of_queue(levels[0].1, want);
        let here = tag_price(levels[0].0, here_pairs);
        lemma_tag_price_total(levels[0].0, here_pairs);
        assert(forall|i: int|
            0 <= i < levels.drop_first().len() ==> queue_wf(
                #[trigger] levels.drop_first()[i].1,
                levels.drop_first()[i].0,
            ));
        lemma_match_totals(levels.drop_first(), side, limit, is_market,
            if want >= avail { (want - avail) as Quantity } else { 0 });
        if want >= avail {
            let rest = match_fills(levels.drop_first(), side, limit, is_market, (want
                - avail) as Quantity);
            lemma_fills_total_concat(here, rest);
        } else {
        }
    }
}

/// The eligible depth is never negative.
pub proof fn lemma_eligible_depth_nonneg(
    levels: Seq<LevelModel>,
    side: Side,
    limit: Price,
    is_market: bool,
)
    ensures
        eligible_depth(levels, side, limit, is_market) >= 0,
    decreases levels.len(),
{
    if levels.len() == 0 {
    } else if !is_market && !spec_price_permits(side, limit, levels[0].0) {
    } else {
        lemma_sum_nonneg(levels[0].1);
        lemma_eligible_depth_nonneg(levels.drop_first(), side, limit, is_market);
    }
}

/// Tagging fills with a price keeps their total.
pub proof fn lemma_tag_price_total(p: Price, fs: Seq<(Order, Quantity)>)
    ensures
        tag_price(p, fs).len() == fs.len(),
        fills_total(tag_price(p, fs)) == fills_sum(fs),
        forall|i: int| 0 <= i < fs.len() ==> #[trigger] tag_price(p, fs)[i] == (p, fs[i].0, fs[i].1),
    decreases fs.len(),
{
    if fs.len() > 0 {
        lemma_tag_price_total(p, fs.drop_first());
        assert(tag_price(p, fs).drop_first() =~= tag_price(p, fs.drop_first()));
    }
}

/// The total of concatenated fills is the sum of the totals.
pub proof fn lemma_fills_total_concat(a: Seq<(Price, Order, Quantity)>, b: Seq<(Price, Order, Quantity)>)
    ensures
        fills_total(a + b) == fills_total(a) + fills_total(b),
    decreases a.len(),
{
    if a.len() == 0 {
        assert(a + b =~= b);
    } else {
        assert((a + b).drop_first() =~= a.drop_first() + b);
        assert((a + b)[0] == a[0]);
        lemma_fills_total_concat(a.drop_first(), b);
    }
}

/// Fill totals are never negative when every fill is nonnegative.
pub proof fn lemma_fills_total_nonneg(fs: Seq<(Price, Order, Quantity)>)
    requires
        forall|j: int| 0 <= j < fs.len() ==> (#[trigger] fs[j]).2 >= 0,
    ensures
        fills_total(fs) >= 0,
    decreases fs.len(),
{
    if fs.len() > 0 {
        assert(forall|j: int|
            0 <= j < fs.drop_first().len() ==> (#[trigger] fs.drop_first()[j]).2 >= 0);
        lemma_fills_total_nonneg(fs.drop_first());
    }
}

/// Dropping the best level keeps a side model well formed.
pub proof fn lemma_side_model_drop(levels: Seq<LevelModel>, lside: Side)
    requires
        side_model_wf(levels, lside),
        side_distinct_ids(levels),
        levels.len() > 0,
    ensures
        side_model_wf(levels.drop_first(), lside),
        side_distinct_ids(levels.drop_first()),
{
    let rest = levels.drop_first();
    assert forall|i: int| 0 <= i < rest.len() implies queue_wf(#[trigger] rest[i].1, rest[i].0)
        && rest[i].1.len() > 0 && rest[i].0 > 0 by {
        assert(rest[i] == levels[i + 1]);
    }
    assert forall|i: int, j: int| 0 <= i < j < rest.len() implies level_before(
        lside,
        rest[i].0,
        rest[j].0,
    ) by {
        assert(rest[i] == levels[i + 1]);
        assert(rest[j] == levels[j + 1]);
    }
    assert forall|i: int, j: int| 0 <= i < rest.len() && 0 <= j < rest[i].1.len() implies (
    #[trigger] rest[i].1[j]).side == lside by {
        assert(rest[i] == levels[i + 1]);
        assert(levels[i + 1].1[j].side == lside);
    }
    assert forall|i: int, k: int, a: int, b: int|
        0 <= i < rest.len() && 0 <= k < rest.len() && 0 <= a < rest[i].1.len() && 0 <= b
            < rest[k].1.len() && (i != k || a != b) implies (#[trigger] rest[i].1[a]).id != (
    #[trigger] rest[k].1[b]).id by {
        assert(rest[i] == levels[i + 1]);
        assert(rest[k] == levels[k + 1]);
        assert(levels[i + 1].1[a].id != levels[k + 1].1[b].id);
    }
}

/// Whether a fill in a pair list exhausted the order with this identifier.
pub open spec fn pair_filled_out(fs: Seq<(Order, Quantity)>, x: OrderId) -> bool {
    exists|i: int|
        0 <= i < fs.len() && (#[trigger] fs[i]).0.id == x && fs[i].0.remaining_quantity == 0
}

/// Fills keep the queue's identifiers, position by position.
#[verifier::spinoff_prover]
pub proof fn lemma_fills_ids(q: Seq<Order>, want: Quantity, price: Price)
    requires
        queue_wf(q, price),
    ensures
        fills_of_queue(q, want).len() <= q.len(),
        forall|i: int|
            0 <= i < fills_of_queue(q, want).len() ==> (#[trigger] fills_of_queue(q, want)[i]).0.id
                == q[i].id,
{
    lemma_take_shape(q, want, price);
    let fs = fills_of_queue(q, want);
    assert forall|i: int| 0 <= i < fs.len() implies (#[trigger] fs[i]).0.id == q[i].id by {
        assert(fs[i].0 == spec_filled(q[i], fs[i].1));
    }
}

/// Every survivor of a take keeps the identity and side of an original order.
#[verifier::spinoff_prover]
pub proof fn lemma_queue_after_elems(q: Seq<Order>, want: Quantity, price: Price)
    requires
        queue_wf(q, price),
    ensures
        forall|j: int|
            0 <= j < queue_after_take(q, want).len() ==> exists|i: int|
                0 <= i < q.len() && (#[trigger] queue_after_take(q, want)[j]).id == q[i].id && (
                queue_after_take(q, want)[j]).side == q[i].side,
{
    lemma_take_shape(q, want, price);
    let fs = fills_of_queue(q, want);
    let k = fs.len() as int;
    let after = queue_after_take(q, want);
    assert forall|j: int| 0 <= j < after.len() implies exists|i: int|
        0 <= i < q.len() && (#[trigger] after[j]).id == q[i].id && (after[j]).side
            == q[i].side by {
        if k > 0 && fs[k - 1].0.remaining_quantity > 0 {
            assert(after == seq![fs[k - 1].0] + q.skip(k));
            if j == 0 {
                assert(after[0] == fs[k - 1].0);
                assert(fs[k - 1].0 == spec_filled(q[k - 1], fs[k - 1].1));
                assert(after[0].id == q[k - 1].id && after[0].side == q[k - 1].side);
            } else {
                assert(after[j] == q.skip(k)[j - 1]);
                assert(q.skip(k)[j - 1] == q[k + j - 1]);
                assert(after[j].id == q[k + j - 1].id && after[j].side == q[k + j - 1].side);
            }
        } else {
            assert(after == q.skip(k));
            assert(after[j] == q.skip(k)[j]);
            assert(q.skip(k)[j] == q[k + j]);
            assert(after[j].id == q[k + j].id && after[j].side == q[k + j].side);
        }
    }
}

/// An identifier survives a take exactly when it was present and its order
/// was not fully consumed.
#[verifier::spinoff_prover]
#[verifier::rlimit(100)]
pub proof fn lemma_queue_after_ids(q: Seq<Order>, want: Quantity, price: Price)
    requires
        queue_wf(q, price),
    ensures
        forall|x: OrderId|
            #![trigger has_id(queue_after_take(q, want), x)]
            #![trigger has_id(q, x)]
            has_id(queue_after_take(q, want), x) <==> (has_id(q, x) && !pair_filled_out(
                fills_of_queue(q, want),
                x,
            )),
{
    lemma_take_shape(q, want, price);
    let fs = fills_of_queue(q, want);
    let k = fs.len() as int;
    let after = queue_after_take(q, want);
    let partial = k > 0 && fs[k - 1].0.remaining_quantity > 0;
    assert forall|i: int| 0 <= i < k implies (#[trigger] fs[i]).0.id == q[i].id by {
        assert(fs[i].0 == spec_filled(q[i], fs[i].1));
    }
    assert forall|x: OrderId| has_id(after, x) implies (has_id(q, x) && !pair_filled_out(
        fs,
        x,
    )) by {
        let j = choose|j: int| 0 <= j < after.len() && after[j].id == x;
        let qi = if partial {
            if j == 0 {
                k - 1
            } else {
                k + j - 1
            }
        } else {
            k + j
        };
        if partial {
            assert(after == seq![fs[k - 1].0] + q.skip(k));
            if j == 0 {
                assert(after[0] == fs[k - 1].0);
            } else {
                assert(after[j] == q.skip(k)[j - 1]);
                assert(q.skip(k)[j - 1] == q[k + j - 1]);
            }
        } else {
            assert(after == q.skip(k));
            assert(after[j] == q.skip(k)[j]);
            assert(q.skip(k)[j] == q[k + j]);
        }
        assert(q[qi].id == x);
        assert(has_id(q, x));
        if pair_filled_out(fs, x) {
            let i = choose|i: int|
                0 <= i < fs.len() && (#[trigger] fs[i]).0.id == x && fs[i].0.remaining_quantity
                    == 0;
            assert(fs[i].0.id == q[i].id);
            assert(q[i].id == q[qi].id);
            assert(i == qi);
            if partial && j == 0 {
                assert(fs[k - 1].0.remaining_quantity > 0);
            } else {
                assert(i <= k - 1 && qi >= k);
            }
        }
    }
    assert forall|x: OrderId| (has_id(q, x) && !pair_filled_out(fs, x)) implies has_id(
        after,
        x,
    ) by {
        let qi = choose|qi: int| 0 <= qi < q.len() && q[qi].id == x;
        if qi <= k - 1 {
            assert(fs[qi].0.id == x);
            if qi < k - 1 {
                assert(fs[qi].0.remaining_quantity == 0);
                assert(pair_filled_out(fs, x));
            } else {
                if partial {
                    assert(after == seq![fs[k - 1].0] + q.skip(k));
                    assert(after[0] == fs[k - 1].0);
                    assert(after[0].id == x);
                } else {
                    assert(fs[k - 1].0.remaining_quantity == 0);
                    assert(pair_filled_out(fs, x));
                }
            }
        } else {
            if partial {
                assert(after == seq![fs[k - 1].0] + q.skip(k));
                assert(after[qi - k + 1] == q.skip(k)[qi - k]);
                assert(q.skip(k)[qi - k] == q[qi]);
                assert(after[qi - k + 1].id == x);
            } else {
                assert(after == q.skip(k));
                assert(after[qi - k] == q.skip(k)[qi - k]);
                assert(q.skip(k)[qi - k] == q[qi]);
                assert(after[qi - k].id == x);
            }
        }
    }
}

/// When the want covers the whole queue, everything is consumed.
#[verifier::spinoff_prover]
pub proof fn lemma_take_all(q: Seq<Order>, want: Quantity, price: Price)
    requires
        queue_wf(q, price),
        want >= sum_remaining(q),
    ensures
        fills_of_queue(q, want).len() == q.len(),
        queue_after_take(q, want).len() == 0,
        forall|x: OrderId| pair_filled_out(fills_of_queue(q, want), x) <==> has_id(q, x),
{
    lemma_take_totals(q, want, price);
    lemma_take_shape(q, want, price);
    lemma_queue_after_ids(q, want, price);
    let fs = fills_of_queue(q, want);
    let after = queue_after_take(q, want);
    let k = fs.len() as int;
    lemma_sum_nonneg(q);
    if after.len() > 0 {
        // a nonempty well-formed remainder would still hold quantity
        assert(queue_wf(after, price));
        assert(after[0].remaining_quantity > 0);
        assert(sum_remaining(after) >= after[0].remaining_quantity) by {
            lemma_sum_nonneg(after.drop_first());
        }
        assert(false);
    }
    assert(k == q.len()) by {
        if k > 0 && fs[k - 1].0.remaining_quantity > 0 {
            assert(after == seq![fs[k - 1].0] + q.skip(k));
            assert(after.len() > 0);
        } else {
            assert(after == q.skip(k));
        }
    }
    assert forall|x: OrderId| pair_filled_out(fs, x) <==> has_id(q, x) by {
        assert(!has_id(after, x));
    }
}

/// An identifier resting in level `i` determines the side's price for it.
pub proof fn lemma_side_price_unique(levels: Seq<LevelModel>, i: int, x: OrderId)
    requires
        side_distinct_ids(levels),
        0 <= i < levels.len(),
        has_id(levels[i].1, x),
    ensures
        side_has_id(levels, x),
        side_price_of(levels, x) == levels[i].0,
{
    assert(side_has_id(levels, x));
    let j = choose|j: int| 0 <= j < levels.len() && has_id(levels[j].1, x);
    let a = choose|a: int| 0 <= a < levels[j].1.len() && levels[j].1[a].id == x;
    let b = choose|b: int| 0 <= b < levels[i].1.len() && levels[i].1[b].id == x;
    if j != i {
        assert(levels[j].1[a].id != levels[i].1[b].id);
        assert(false);
    }
}

/// Full fills distribute over concatenation.
pub proof fn lemma_fully_filled_concat(
    a: Seq<(Price, Order, Quantity)>,
    b: Seq<(Price, Order, Quantity)>,
    x: OrderId,
)
    ensures
        spec_fully_filled(a + b, x) <==> (spec_fully_filled(a, x) || spec_fully_filled(b, x)),
{
    let c = a + b;
    if spec_fully_filled(c, x) {
        let i = choose|i: int|
            0 <= i < c.len() && c[i].1.id == x && c[i].1.remaining_quantity == 0;
        if i < a.len() {
            assert(a[i] == c[i]);
            assert(spec_fully_filled(a, x));
        } else {
            assert(b[i - a.len()] == c[i]);
            assert(spec_fully_filled(b, x));
        }
    }
    if spec_fully_filled(a, x) {
        let i = choose|i: int|
            0 <= i < a.len() && a[i].1.id == x && a[i].1.remaining_quantity == 0;
        assert(c[i] == a[i]);
        assert(spec_fully_filled(c, x));
    }
    if spec_fully_filled(b, x) {
        let i = choose|i: int|
            0 <= i < b.len() && b[i].1.id == x && b[i].1.remaining_quantity == 0;
        assert(c[a.len() + i] == b[i]);
        assert(spec_fully_filled(c, x));
    }
}

/// Tagging with a price does not change which orders were consumed.
pub proof fn lemma_fully_filled_tag(p: Price, fs: Seq<(Order, Quantity)>, x: OrderId)
    ensures
        spec_fully_filled(tag_price(p, fs), x) <==> pair_filled_out(fs, x),
{
    lemma_tag_price_total(p, fs);
    let t = tag_price(p, fs);
    if spec_fully_filled(t, x) {
        let i = choose|i: int|
            0 <= i < t.len() && t[i].1.id == x && t[i].1.remaining_quantity == 0;
        assert(t[i] == (p, fs[i].0, fs[i].1));
        assert(fs[i].0.id == x && fs[i].0.remaining_quantity == 0);
        assert(pair_filled_out(fs, x));
    }
    if pair_filled_out(fs, x) {
        let i = choose|i: int|
            0 <= i < fs.len() && (#[trigger] fs[i]).0.id == x && fs[i].0.remaining_quantity == 0;
        assert(t[i] == (p, fs[i].0, fs[i].1));
        assert(spec_fully_filled(t, x));
    }
}

/// A side holds an identifier exactly when its first level or the rest does.
pub proof fn lemma_side_has_decomp(levels: Seq<LevelModel>, x: OrderId)
    requires
        levels.len() > 0,
    ensures
        side_has_id(levels, x) <==> (has_id(levels[0].1, x) || side_has_id(
            levels.drop_first(),
            x,
        )),
{
    let rest = levels.drop_first();
    if side_has_id(levels, x) {
        let i = choose|i: int| 0 <= i < levels.len() && has_id(#[trigger] levels[i].1, x);
        if i > 0 {
            assert(rest[i - 1] == levels[i]);
            assert(side_has_id(rest, x));
        }
    }
    if side_has_id(rest, x) {
        let i = choose|i: int| 0 <= i < rest.len() && has_id(#[trigger] rest[i].1, x);
        assert(rest[i] == levels[i + 1]);
        assert(side_has_id(levels, x));
    }
}

/// The head level, reduced by a partial take, keeps the side well formed.
#[verifier::spinoff_prover]
#[verifier::rlimit(100)]
pub proof fn lemma_after_head_wf(levels: Seq<LevelModel>, want: Quantity, lside: Side)
    requires
        side_model_wf(levels, lside),
        side_distinct_ids(levels),
        levels.len() > 0,
        0 < want < sum_remaining(levels[0].1),
    ensures
        ({
            let aq = queue_after_take(levels[0].1, want);
            let after = levels.update(0, (levels[0].0, aq));
            &&& side_model_wf(after, lside)
            &&& side_distinct_ids(after)
        }),
{
    let p0 = levels[0].0;
    let q0 = levels[0].1;
    assert(queue_wf(q0, p0));
    let aq = queue_after_take(q0, want);
    let after = levels.update(0, (p0, aq));
    lemma_take_totals(q0, want, p0);
    lemma_queue_after_elems(q0, want, p0);
    lemma_sum_nonneg(q0);
    assert(sum_remaining(aq) == sum_remaining(q0) - want);
    assert(aq.len() > 0) by {
        if aq.len() == 0 {
            assert(sum_remaining(aq) == 0);
        }
    }
    assert(after[0] == (p0, aq));
    assert forall|i: int| 0 <= i < after.len() implies queue_wf(#[trigger] after[i].1, after[i].0)
        && after[i].1.len() > 0 && after[i].0 > 0 by {
        if i > 0 {
            assert(after[i] == levels[i]);
        }
    }
    assert forall|i: int, j: int| 0 <= i < j < after.len() implies level_before(
        lside,
        after[i].0,
        after[j].0,
    ) by {
        assert(after[i].0 == levels[i].0);
        assert(after[j].0 == levels[j].0);
    }
    assert forall|i: int, j: int|
        0 <= i < after.len() && 0 <= j < after[i].1.len() implies (#[trigger] after[i].1[j]).side
            == lside by {
        if i > 0 {
            assert(after[i] == levels[i]);
            assert(levels[i].1[j].side == lside);
        } else {
            let w = choose|w: int|
                0 <= w < q0.len() && aq[j].id == q0[w].id && aq[j].side == q0[w].side;
            assert(q0[w].side == lside);
        }
    }
    assert forall|i: int, k: int, a: int, b: int|
        0 <= i < after.len() && 0 <= k < after.len() && 0 <= a < after[i].1.len() && 0 <= b
            < after[k].1.len() && (i != k || a != b) implies (#[trigger] after[i].1[a]).id != (
    #[trigger] after[k].1[b]).id by {
        if i == 0 && k == 0 {
            assert(queue_wf(aq, p0));
            assert(aq[a].id != aq[b].id);
        } else if i == 0 {
            let ia = choose|w: int|
                0 <= w < q0.len() && aq[a].id == q0[w].id && aq[a].side == q0[w].side;
            assert(after[k] == levels[k]);
            assert(aq[a].id == q0[ia].id);
            assert(levels[0].1[ia].id != levels[k].1[b].id);
        } else if k == 0 {
            let kb = choose|w: int|
                0 <= w < q0.len() && aq[b].id == q0[w].id && aq[b].side == q0[w].side;
            assert(after[i] == levels[i]);
            assert(aq[b].id == q0[kb].id);
            assert(levels[i].1[a].id != levels[0].1[kb].id);
        } else {
            assert(after[i] == levels[i]);
            assert(after[k] == levels[k]);
            assert(levels[i].1[a].id != levels[k].1[b].id);
        }
    }
}

/// Structure of one matching pass: well-formedness and sortedness survive,
/// at most the old levels remain, the fills take exactly `min(want, eligible)`,
/// and if quantity is left with levels remaining, the next price does not
/// permit a trade.
#[verifier::spinoff_prover]
#[verifier::rlimit(100)]
pub proof fn lemma_match_wf(
    levels: Seq<LevelModel>,
    aside: Side,
    limit: Price,
    is_market: bool,
    want: Quantity,
    lside: Side,
)
    requires
        side_model_wf(levels, lside),
        side_distinct_ids(levels),
    ensures
        ({
            let after = levels_after_match(levels, aside, limit, is_market, want);
            let fills = match_fills(levels, aside, limit, is_market, want);
            &&& side_model_wf(after, lside)
            &&& side_distinct_ids(after)
            &&& after.len() <= levels.len()
            &&& fills_total(fills) == if want as int <= eligible_depth(levels, aside, limit, is_market) {
                want as int
            } else {
                eligible_depth(levels, aside, limit, is_market)
            }
            &&& eligible_depth(levels, aside, limit, is_market) >= 0
            &&& (want > fills_total(fills) && after.len() > 0 && !is_market
                ==> !spec_price_permits(aside, limit, after[0].0))
            &&& (after.len() > 0 && levels.len() > 0 ==> (after[0].0 == levels[0].0
                || level_before(lside, levels[0].0, after[0].0)))
        }),
    decreases levels.len(),
{
    let after = levels_after_match(levels, aside, limit, is_market, want);
    let fills = match_fills(levels, aside, limit, is_market, want);
    assert(forall|i: int| 0 <= i < levels.len() ==> queue_wf(#[trigger] levels[i].1, levels[i].0));
    lemma_match_totals(levels, aside, limit, is_market, want);
    if want == 0 || levels.len() == 0 {
    } else if !is_market && !spec_price_permits(aside, limit, levels[0].0) {
    } else {
        let p0 = levels[0].0;
        let q0 = levels[0].1;
        let avail = sum_remaining(q0);
        lemma_sum_nonneg(q0);
        let rest = levels.drop_first();
        lemma_side_model_drop(levels, lside);
        if want >= avail {
            let wrest = (want - avail) as Quantity;
            lemma_match_wf(rest, aside, limit, is_market, wrest, lside);
            let here = tag_price(p0, fills_of_queue(q0, want));
            let rest_fills = match_fills(rest, aside, limit, is_market, wrest);
            lemma_tag_price_total(p0, fills_of_queue(q0, want));
            lemma_take_totals(q0, want, p0);
            lemma_fills_total_concat(here, rest_fills);
            lemma_match_totals(rest, aside, limit, is_market, wrest);
            if after.len() > 0 {
                assert(rest.len() > 0);
                assert(after[0].0 == rest[0].0 || level_before(lside, rest[0].0, after[0].0));
                assert(rest[0] == levels[1]);
                assert(level_before(lside, levels[0].0, levels[1].0));
            }
        } else {
            lemma_after_head_wf(levels, want, lside);
            lemma_take_totals(q0, want, p0);
            lemma_tag_price_total(p0, fills_of_queue(q0, want));
            assert(after[0] == (p0, queue_after_take(q0, want)));
        }
    }
}

/// Identifier bookkeeping of one matching pass: exactly the fully filled
/// resting orders disappear from the side, and survivors keep their price.
#[verifier::spinoff_prover]
#[verifier::rlimit(100)]
pub proof fn lemma_match_ids(
    levels: Seq<LevelModel>,
    aside: Side,
    limit: Price,
    is_market: bool,
    want: Quantity,
    lside: Side,
)
    requires
        side_model_wf(levels, lside),
        side_distinct_ids(levels),
    ensures
        ({
            let after = levels_after_match(levels, aside, limit, is_market, want);
            let fills = match_fills(levels, aside, limit, is_market, want);
            &&& forall|x: OrderId|
                side_has_id(after, x) <==> (side_has_id(levels, x) && !spec_fully_filled(fills, x))
            &&& forall|x: OrderId|
                side_has_id(after, x) ==> side_price_of(after, x) == side_price_of(levels, x)
        }),
    decreases levels.len(),
{
    let after = levels_after_match(levels, aside, limit, is_market, want);
    let fills = match_fills(levels, aside, limit, is_market, want);
    if want == 0 || levels.len() == 0 {
        assert(after == levels);
        assert(fills.len() == 0);
    } else if !is_market && !spec_price_permits(aside, limit, levels[0].0) {
        assert(after == levels);
        assert(fills.len() == 0);
    } else {
        let p0 = levels[0].0;
        let q0 = levels[0].1;
        let avail = sum_remaining(q0);
        assert(queue_wf(q0, p0));
        lemma_sum_nonneg(q0);
        let here_pairs = fills_of_queue(q0, want);
        let here = tag_price(p0, here_pairs);
        lemma_tag_price_total(p0, here_pairs);
        lemma_fills_ids(q0, want, p0);
        let rest = levels.drop_first();
        lemma_side_model_drop(levels, lside);
        if want >= avail {
            let wrest = (want - avail) as Quantity;
            let rest_fills = match_fills(rest, aside, limit, is_market, wrest);
            let rest_after = levels_after_match(rest, aside, limit, is_market, wrest);
            lemma_match_ids(rest, aside, limit, is_market, wrest, lside);
            lemma_match_wf(rest, aside, limit, is_market, wrest, lside);
            lemma_take_all(q0, want, p0);
            assert(fills == here + rest_fills);
            assert(after == rest_after);
            assert forall|x: OrderId| side_has_id(after, x) implies (side_has_id(levels, x)
                && !spec_fully_filled(fills, x)) by {
                lemma_fully_filled_concat(here, rest_fills, x);
                lemma_fully_filled_tag(p0, here_pairs, x);
                lemma_side_has_decomp(levels, x);
                if has_id(q0, x) {
                    assert(side_has_id(rest, x) && !spec_fully_filled(rest_fills, x));
                    let i = choose|i: int| 0 <= i < rest.len() && has_id(#[trigger] rest[i].1, x);
                    let a = choose|a: int| 0 <= a < rest[i].1.len() && rest[i].1[a].id == x;
                    let b = choose|b: int| 0 <= b < q0.len() && q0[b].id == x;
                    assert(rest[i] == levels[i + 1]);
                    assert(levels[i + 1].1[a].id != levels[0].1[b].id);
                    assert(false);
                }
            }
            assert forall|x: OrderId| (side_has_id(levels, x) && !spec_fully_filled(fills, x))
                implies side_has_id(after, x) by {
                lemma_fully_filled_concat(here, rest_fills, x);
                lemma_fully_filled_tag(p0, here_pairs, x);
                lemma_side_has_decomp(levels, x);
                if has_id(q0, x) {
                    assert(pair_filled_out(here_pairs, x));
                    assert(false);
                }
            }
            assert forall|x: OrderId| side_has_id(after, x) implies #[trigger] side_price_of(
                after,
                x,
            ) == side_price_of(levels, x) by {
                assert(side_has_id(rest, x));
                let i = choose|i: int| 0 <= i < rest.len() && has_id(#[trigger] rest[i].1, x);
                assert(rest[i] == levels[i + 1]);
                lemma_side_price_unique(rest, i, x);
                lemma_side_price_unique(levels, i + 1, x);
            }
        } else {
            let aq = queue_after_take(q0, want);
            assert(fills == here);
            assert(after == levels.update(0, (p0, aq)));
            lemma_queue_after_ids(q0, want, p0);
            lemma_after_head_wf(levels, want, lside);
            assert(after[0] == (p0, aq));
            assert forall|x: OrderId| side_has_id(after, x) implies (side_has_id(levels, x)
                && !spec_fully_filled(fills, x)) by {
                lemma_fully_filled_tag(p0, here_pairs, x);
                let i = choose|i: int| 0 <= i < after.len() && has_id(#[trigger] after[i].1, x);
                if i == 0 {
                    assert(has_id(aq, x));
                    assert(has_id(q0, x) && !pair_filled_out(here_pairs, x));
                    lemma_side_has_decomp(levels, x);
                } else {
                    assert(after[i] == levels[i]);
                    assert(side_has_id(levels, x));
                    if pair_filled_out(here_pairs, x) {
                        let f = choose|f: int|
                            0 <= f < here_pairs.len() && (#[trigger] here_pairs[f]).0.id == x
                                && here_pairs[f].0.remaining_quantity == 0;
                        assert(here_pairs[f].0.id == q0[f].id);
                        let b = choose|b: int| 0 <= b < levels[i].1.len() && levels[i].1[b].id == x;
                        assert(levels[0].1[f].id != levels[i].1[b].id);
                        assert(false);
                    }
                }
            }
            assert forall|x: OrderId| (side_has_id(levels, x) && !spec_fully_filled(fills, x))
                implies side_has_id(after, x) by {
                lemma_fully_filled_tag(p0, here_pairs, x);
                let i = choose|i: int| 0 <= i < levels.len() && has_id(#[trigger] levels[i].1, x);
                if i == 0 {
                    assert(has_id(aq, x));
                    assert(has_id(after[0].1, x));
                } else {
                    assert(after[i] == levels[i]);
                    assert(has_id(after[i].1, x));
                }
            }
            assert forall|x: OrderId| side_has_id(after, x) implies #[trigger] side_price_of(
                after,
                x,
            ) == side_price_of(levels, x) by {
                let i = choose|i: int| 0 <= i < after.len() && has_id(#[trigger] after[i].1, x);
                lemma_side_price_unique(after, i, x);
                if i == 0 {
                    assert(has_id(q0, x));
                    lemma_side_price_unique(levels, 0, x);
                } else {
                    assert(after[i] == levels[i]);
                    lemma_side_price_unique(levels, i, x);
                }
            }
        }
    }
}

/// Every fill of a matching pass is positive, at a positive level price, and
/// taken from a resting order of the side.
#[verifier::spinoff_prover]
#[verifier::rlimit(100)]
pub proof fn lemma_match_fill_attrs(
    levels: Seq<LevelModel>,
    aside: Side,
    limit: Price,
    is_market: bool,
    want: Quantity,
    lside: Side,
)
    requires
        side_model_wf(levels, lside),
        side_distinct_ids(levels),
    ensures
        ({
            let fills = match_fills(levels, aside, limit, is_market, want);
            forall|i: int|
                0 <= i < fills.len() ==> (#[trigger] fills[i]).2 > 0 && fills[i].0 > 0
                    && fills[i].1.side == lside && side_has_id(levels, fills[i].1.id)
        }),
    decreases levels.len(),
{
    let fills = match_fills(levels, aside, limit, is_market, want);
    if want == 0 || levels.len() == 0 {
    } else if !is_market && !spec_price_permits(aside, limit, levels[0].0) {
    } else {
        let p0 = levels[0].0;
        let q0 = levels[0].1;
        let avail = sum_remaining(q0);
        assert(queue_wf(q0, p0));
        lemma_sum_nonneg(q0);
        let here_pairs = fills_of_queue(q0, want);
        let here = tag_price(p0, here_pairs);
        lemma_tag_price_total(p0, here_pairs);
        lemma_take_shape(q0, want, p0);
        let rest = levels.drop_first();
        lemma_side_model_drop(levels, lside);
        if want >= avail {
            let wrest = (want - avail) as Quantity;
            let rest_fills = match_fills(rest, aside, limit, is_market, wrest);
            lemma_match_fill_attrs(rest, aside, limit, is_market, wrest, lside);
            assert(fills == here + rest_fills);
            assert forall|i: int| 0 <= i < fills.len() implies (#[trigger] fills[i]).2 > 0
                && fills[i].0 > 0 && fills[i].1.side == lside && side_has_id(
                levels,
                fills[i].1.id,
            ) by {
                if i < here.len() {
                    assert(here[i] == (p0, here_pairs[i].0, here_pairs[i].1));
                    assert(fills[i] == here[i]);
                    assert(here_pairs[i].0 == spec_filled(q0[i], here_pairs[i].1));
                    assert(0 < here_pairs[i].1);
                    assert(q0[i].side == lside);
                    assert(has_id(q0, fills[i].1.id)) by {
                        assert(q0[i].id == fills[i].1.id);
                    }
                    lemma_side_has_decomp(levels, fills[i].1.id);
                } else {
                    assert(fills[i] == rest_fills[i - here.len()]);
                    assert(side_has_id(rest, fills[i].1.id));
                    lemma_side_has_decomp(levels, fills[i].1.id);
                }
            }
        } else {
            assert(fills == here);
            assert forall|i: int| 0 <= i < fills.len() implies (#[trigger] fills[i]).2 > 0
                && fills[i].0 > 0 && fills[i].1.side == lside && side_has_id(
                levels,
                fills[i].1.id,
            ) by {
                assert(fills[i] == (p0, here_pairs[i].0, here_pairs[i].1));
                assert(here_pairs[i].0 == spec_filled(q0[i], here_pairs[i].1));
                assert(0 < here_pairs[i].1);
                assert(q0[i].side == lside);
                assert(has_id(q0, fills[i].1.id)) by {
                    assert(q0[i].id == fills[i].1.id);
                }
                lemma_side_has_decomp(levels, fills[i].1.id);
            }
        }
    }
}

/// Price priority: fills start at the best opposing price and move toward
/// worse prices only as levels are exhausted. For a Buy aggressor against
/// asks sorted lowest first, the first fill is at the minimum ask price and
/// fill prices never decrease; for a Sell aggressor, symmetrically, they
/// never increase.
#[verifier::spinoff_prover]
pub proof fn lemma_price_priority(
    levels: Seq<LevelModel>,
    aside: Side,
    limit: Price,
    is_market: bool,
    want: Quantity,
    lside: Side,
)
    requires
        side_model_wf(levels, lside),
    ensures
        ({
            let fills = match_fills(levels, aside, limit, is_market, want);
            &&& (fills.len() > 0 ==> fills[0].0 == levels[0].0)
            &&& forall|i: int|
                0 <= i < fills.len() ==> ((#[trigger] fills[i]).0 == levels[0].0 || level_before(
                    lside,
                    levels[0].0,
                    fills[i].0,
                ))
            &&& forall|i: int, j: int|
                0 <= i <= j < fills.len() ==> ((#[trigger] fills[i]).0 == (#[trigger] fills[j]).0
                    || level_before(lside, fills[i].0, fills[j].0))
        }),
    decreases levels.len(),
{
    let fills = match_fills(levels, aside, limit, is_market, want);
    if want == 0 || levels.len() == 0 {
    } else if !is_market && !spec_price_permits(aside, limit, levels[0].0) {
    } else {
        let p0 = levels[0].0;
        let q0 = levels[0].1;
        let avail = sum_remaining(q0);
        let here_pairs = fills_of_queue(q0, want);
        let here = tag_price(p0, here_pairs);
        lemma_tag_price_total(p0, here_pairs);
        let rest = levels.drop_first();
        lemma_side_model_drop_wf_only(levels, lside);
        if want >= avail {
            let wrest = (want - avail) as Quantity;
            let rest_fills = match_fills(rest, aside, limit, is_market, wrest);
            lemma_price_priority(rest, aside, limit, is_market, wrest, lside);
            assert(fills == here + rest_fills);
            assert forall|i: int| 0 <= i < fills.len() implies ((#[trigger] fills[i]).0 == p0
                || level_before(lside, p0, fills[i].0)) by {
                if i < here.len() {
                    assert(fills[i] == here[i]);
                } else {
                    assert(fills[i] == rest_fills[i - here.len()]);
                    assert(rest[0] == levels[1]);
                    assert(level_before(lside, levels[0].0, levels[1].0));
                }
            }
            assert forall|i: int, j: int| 0 <= i <= j < fills.len() implies ((
            #[trigger] fills[i]).0 == (#[trigger] fills[j]).0 || level_before(
                lside,
                fills[i].0,
                fills[j].0,
            )) by {
                if i < here.len() && j < here.len() {
                    assert(fills[i] == here[i]);
                    assert(fills[j] == here[j]);
                } else if i < here.len() {
                    assert(fills[i] == here[i]);
                    assert(fills[i].0 == p0);
                    assert(fills[j] == rest_fills[j - here.len()]);
                    assert(rest[0] == levels[1]);
                    assert(level_before(lside, levels[0].0, levels[1].0));
                } else {
                    assert(fills[i] == rest_fills[i - here.len()]);
                    assert(fills[j] == rest_fills[j - here.len()]);
                }
            }
            if fills.len() > 0 {
                if here.len() > 0 {
                    assert(fills[0] == here[0]);
                } else {
                    assert(here_pairs.len() == 0);
                    assert(want > 0 && q0.len() > 0);
                    assert(here_pairs.len() > 0);
                }
            }
        } else {
            assert(fills == here);
            assert(want > 0 && q0.len() > 0);
            assert(here_pairs.len() > 0);
            assert(fills[0] == here[0]);
        }
    }
}

/// Dropping the best level keeps the model clauses used by sorting proofs.
proof fn lemma_side_model_drop_wf_only(levels: Seq<LevelModel>, lside: Side)
    requires
        side_model_wf(levels, lside),
        levels.len() > 0,
    ensures
        side_model_wf(levels.drop_first(), lside),
{
    let rest = levels.drop_first();
    assert forall|i: int| 0 <= i < rest.len() implies queue_wf(#[trigger] rest[i].1, rest[i].0)
        && rest[i].1.len() > 0 && rest[i].0 > 0 by {
        assert(rest[i] == levels[i + 1]);
    }
    assert forall|i: int, j: int| 0 <= i < j < rest.len() implies level_before(
        lside,
        rest[i].0,
        rest[j].0,
    ) by {
        assert(rest[i] == levels[i + 1]);
        assert(rest[j] == levels[j + 1]);
    }
    assert forall|i: int, j: int|
        0 <= i < rest.len() && 0 <= j < rest[i].1.len() implies (#[trigger] rest[i].1[j]).side
            == lside by {
        assert(rest[i] == levels[i + 1]);
        assert(levels[i + 1].1[j].side == lside);
    }
}

/// Volume conservation: the quantity carried by the fills of one matching
/// pass equals exactly the resting depth removed from the opposite side.
#[verifier::spinoff_prover]
pub proof fn lemma_match_conserves_depth(
    levels: Seq<LevelModel>,
    aside: Side,
    limit: Price,
    is_market: bool,
    want: Quantity,
    lside: Side,
)
    requires
        side_model_wf(levels, lside),
        side_distinct_ids(levels),
    ensures
        side_depth(levels_after_match(levels, aside, limit, is_market, want)) == side_depth(
            levels,
        ) - fills_total(match_fills(levels, aside, limit, is_market, want)),
    decreases levels.len(),
{
    let after = levels_after_match(levels, aside, limit, is_market, want);
    let fills = match_fills(levels, aside, limit, is_market, want);
    if want == 0 || levels.len() == 0 {
        assert(after == levels);
        assert(fills.len() == 0);
    } else if !is_market && !spec_price_permits(aside, limit, levels[0].0) {
        assert(after == levels);
        assert(fills.len() == 0);
    } else {
        let p0 = levels[0].0;
        let q0 = levels[0].1;
        let avail = sum_remaining(q0);
        assert(queue_wf(q0, p0));
        let here_pairs = fills_of_queue(q0, want);
        let here = tag_price(p0, here_pairs);
        lemma_tag_price_total(p0, here_pairs);
        lemma_take_totals(q0, want, p0);
        let rest = levels.drop_first();
        lemma_side_model_drop(levels, lside);
        if want >= avail {
            let wrest = (want - avail) as Quantity;
            let rest_fills = match_fills(rest, aside, limit, is_market, wrest);
            lemma_match_conserves_depth(rest, aside, limit, is_market, wrest, lside);
            assert(fills == here + rest_fills);
            lemma_fills_total_concat(here, rest_fills);
            assert(fills_total(here) == avail);
        } else {
            let aq = queue_after_take(q0, want);
            assert(after == levels.update(0, (p0, aq)));
            assert(after[0].1 == aq);
            assert(after.drop_first() =~= rest);
            assert(side_depth(after) == sum_remaining(aq) + side_depth(rest));
            assert(sum_remaining(aq) == avail - want);
            assert(fills_total(fills) == want);
        }
    }
}

/// The aggressor after absorbing everything the matching pass can take.
pub open spec fn matched_aggressor(order0: Order, levels0: Seq<LevelModel>, is_market: bool) -> Order {
    let total = fills_total(
        match_fills(levels0, order0.side, order0.price, is_market, order0.remaining_quantity),
    );
    if total == 0 {
        order0
    } else {
        spec_filled(order0, total as Quantity)
    }
}

/// The order, cancelled when any quantity remains.
pub open spec fn spec_cancel_residual(o: Order) -> Order {
    if o.remaining_quantity > 0 {
        Order { status: OrderStatus::Cancelled, ..o }
    } else {
        o
    }
}

/// Adding one fill at the end adds its quantity to the total.
pub proof fn lemma_fills_total_push(fs: Seq<(Price, Order, Quantity)>, e: (Price, Order, Quantity))
    ensures
        fills_total(fs.push(e)) == fills_total(fs) + e.2,
{
    assert(fs.push(e) =~= fs + seq![e]);
    lemma_fills_total_concat(fs, seq![e]);
    assert(seq![e].drop_first() =~= Seq::<(Price, Order, Quantity)>::empty());
    assert(seq![e][0] == e);
    assert(fills_total(seq![e].drop_first()) == 0);
    assert(fills_total(seq![e]) == e.2);
}

/// Adding one fill at the end extends the set of consumed orders by at most
/// that fill's order.
pub proof fn lemma_fully_filled_push(
    fs: Seq<(Price, Order, Quantity)>,
    e: (Price, Order, Quantity),
    x: OrderId,
)
    ensures
        spec_fully_filled(fs.push(e), x) <==> (spec_fully_filled(fs, x) || (e.1.id == x
            && e.1.remaining_quantity == 0)),
{
    assert(fs.push(e) =~= fs + seq![e]);
    lemma_fully_filled_concat(fs, seq![e], x);
    if spec_fully_filled(seq![e], x) {
        let i = choose|i: int|
            0 <= i < seq![e].len() && seq![e][i].1.id == x && seq![e][i].1.remaining_quantity == 0;
        assert(i == 0);
    }
    if e.1.id == x && e.1.remaining_quantity == 0 {
        assert(seq![e][0].1.id == x && seq![e][0].1.remaining_quantity == 0);
        assert(spec_fully_filled(seq![e], x));
    }
}

/// The matching engine: price-time priority traversal for each order type.
pub struct MatchingEngine;

impl MatchingEngine {
    /// Whether the aggressor's limit price permits trading at a level price.
    fn price_permits(side: Side, limit: Price, level_price: Price) -> (r: bool)
        ensures
            r == spec_price_permits(side, limit, level_price),
    {
        match side {
            Side::Buy => limit >= level_price,
            Side::Sell => limit <= level_price,
        }
    }

    /// The shared matching loop: walk the opposite side best level first,
    /// fill resting orders in time priority, record one trade per fill, and
    /// unregister every resting order that was consumed entirely.
    #[verifier::rlimit(100)]
    fn match_core(
        order: &mut Order,
        opposite_levels: &mut Vec<PriceLevel>,
        locations: &mut LocationTable,
        is_market: bool,
    ) -> (trades: Vec<Trade>)
        requires
            old(order).quantities_ok(),
            side_ok(old(opposite_levels)@, opposite(old(order).side)),
            old(locations).wf(),
        ensures
            final(order).quantities_ok(),
            side_ok(final(opposite_levels)@, opposite(old(order).side)),
            final(locations).wf(),
            *final(order) == matched_aggressor(
                *old(order),
                side_view(old(opposite_levels)@),
                is_market,
            ),
            match_post(
                *old(order),
                side_view(old(opposite_levels)@),
                side_view(final(opposite_levels)@),
                *old(locations),
                *final(locations),
                trades@,
                is_market,
            ),
    {
        let ghost ord0 = *old(order);
        let ghost lv0 = side_view(old(opposite_levels)@);
        let ghost loc0 = *old(locations);
        let ghost w0 = ord0.remaining_quantity;
        let ghost lside = opposite(ord0.side);
        let mut trades: Vec<Trade> = Vec::new();
        let ghost mut facc: Seq<(Price, Order, Quantity)> = Seq::empty();
        proof {
            assert(match_fills(lv0, ord0.side, ord0.price, is_market, w0) =~= facc + match_fills(
                side_view(opposite_levels@),
                ord0.side,
                ord0.price,
                is_market,
                order.remaining_quantity,
            ));
            assert(facc + Seq::<(Price, Order, Quantity)>::empty() =~= facc);
        }
        while order.remaining_quantity > 0 && opposite_levels.len() > 0 && (is_market
            || Self::price_permits(order.side, order.price, opposite_levels[0].price))
            invariant
                order.quantities_ok(),
                order.side == ord0.side,
                order.price == ord0.price,
                order.id == ord0.id,
                order.symbol == ord0.symbol,
                side_ok(opposite_levels@, lside),
                locations.wf(),
                lside == opposite(ord0.side),
                w0 == ord0.remaining_quantity,
                ord0.quantities_ok(),
                match_fills(lv0, ord0.side, ord0.price, is_market, w0) == facc + match_fills(
                    side_view(opposite_levels@),
                    ord0.side,
                    ord0.price,
                    is_market,
                    order.remaining_quantity,
                ),
                levels_after_match(lv0, ord0.side, ord0.price, is_market, w0)
                    == levels_after_match(
                    side_view(opposite_levels@),
                    ord0.side,
                    ord0.price,
                    is_market,
                    order.remaining_quantity,
                ),
                trades@.len() == facc.len(),
                forall|i: int|
                    0 <= i < facc.len() ==> trade_matches_fill(#[trigger] trades@[i], ord0, facc[i]),
                fills_total(facc) + order.remaining_quantity == w0,
                *order == if fills_total(facc) == 0 {
                    ord0
                } else {
                    spec_filled(ord0, fills_total(facc) as Quantity)
                },
                forall|x: OrderId|
                    #![trigger locations.spec_has(x)]
                    #![trigger loc0.spec_has(x)]
                    locations.spec_has(x) <==> (loc0.spec_has(x) && !spec_fully_filled(facc, x)),
                forall|x: OrderId|
                    locations.spec_has(x) ==> locations.spec_loc(x) == loc0.spec_loc(x),
                facc.len() == 0 ==> *locations == loc0,
            decreases opposite_levels@.len() + order.remaining_quantity,
        {
            let ghost lvc = side_view(opposite_levels@);
            let ghost ordc = *order;
            let ghost locc = *locations;
            let ghost tcount = trades@.len() as int;
            let ghost faccc = facc;
            let want = order.remaining_quantity;
            let lvl_price = opposite_levels[0].price;
            proof {
                assert(opposite_levels@[0].wf());
                assert(lvc[0] == (opposite_levels@[0].price, opposite_levels@[0].queue()));
            }
            let ghost vecc = opposite_levels@;
            let mut lvl = opposite_levels.remove(0);
            let ghost q0 = lvl.queue();
            proof {
                assert(queue_wf(q0, lvl_price));
                lemma_sum_nonneg(q0.drop_first());
                assert(sum_remaining(q0) > 0);
                lemma_take_totals(q0, want, lvl_price);
                lemma_take_shape(q0, want, lvl_price);
                lemma_fills_ids(q0, want, lvl_price);
            }
            let fills = lvl.take_quantity(want);
            let ghost here_pairs = fills_of_queue(q0, want);
            let ghost here = tag_price(lvl_price, here_pairs);
            let ghost avail = sum_remaining(q0);
            proof {
                lemma_tag_price_total(lvl_price, here_pairs);
            }
            let level_emptied = lvl.is_empty();
            if !level_emptied {
                opposite_levels.insert(0, lvl);
            }
            // fills are recorded oldest resting order first
            let n = fills.len();
            let mut j: usize = 0;
            while j < n
                invariant
                    n == fills@.len(),
                    j <= n,
                    fills@ == here_pairs,
                    here == tag_price(lvl_price, here_pairs),
                    here.len() == here_pairs.len(),
                    forall|i: int|
                        0 <= i < here_pairs.len() ==> #[trigger] here[i] == (
                            lvl_price,
                            here_pairs[i].0,
                            here_pairs[i].1,
                        ),
                    forall|i: int|
                        0 <= i < here_pairs.len() ==> 0 < (#[trigger] here_pairs[i]).1,
                    fills_sum(here_pairs) <= ordc.remaining_quantity,
                    fills_total(faccc) + ordc.remaining_quantity == w0,
                    w0 == ord0.remaining_quantity,
                    ord0.quantities_ok(),
                    fills_total(here.take(j as int)) == fills_sum_prefix(here_pairs, j as int),
                    ordc.quantities_ok(),
                    order.side == ordc.side,
                    order.price == ordc.price,
                    order.id == ordc.id,
                    order.symbol == ordc.symbol,
                    order.quantities_ok(),
                    *order == if fills_total(faccc) + fills_total(here.take(j as int)) == 0 {
                        ord0
                    } else {
                        spec_filled(
                            ord0,
                            (fills_total(faccc) + fills_total(here.take(j as int))) as Quantity,
                        )
                    },
                    fills_total(faccc) + fills_total(here.take(j as int))
                        + order.remaining_quantity == w0,
                    ord0.side == ordc.side && ord0.price == ordc.price && ord0.id == ordc.id
                        && ord0.symbol == ordc.symbol,
                    trades@.len() == faccc.len() + j,
                    forall|i: int|
                        0 <= i < faccc.len() ==> trade_matches_fill(
                            #[trigger] trades@[i],
                            ord0,
                            faccc[i],
                        ),
                    forall|i: int|
                        0 <= i < j ==> trade_matches_fill(
                            #[trigger] trades@[faccc.len() + i],
                            ord0,
                            here[i],
                        ),
                    locations.wf(),
                    forall|x: OrderId|
                        #![trigger locations.spec_has(x)]
                        #![trigger loc0.spec_has(x)]
                        locations.spec_has(x) <==> (loc0.spec_has(x) && !spec_fully_filled(
                            faccc + here.take(j as int),
                            x,
                        )),
                    forall|x: OrderId|
                        locations.spec_has(x) ==> locations.spec_loc(x) == loc0.spec_loc(x),
                    (faccc + here.take(j as int)).len() == 0 ==> *locations == loc0,
                decreases n - j,
            {
                let fq = fills[j].1;
                let rid = fills[j].0.id;
                let rrem = fills[j].0.remaining_quantity;
                let ghost oentry = *order;
                let ghost locentry = *locations;
                proof {
                    let jj = j as int;
                    assert(here_pairs[jj].1 == fq);
                    lemma_fills_total_nonneg(faccc);
                    lemma_fills_total_nonneg(here.take(jj));
                    assert(oentry.remaining_quantity == w0 - (fills_total(faccc) + fills_total(
                        here.take(jj),
                    )));
                    lemma_fills_sum_prefix_step(here_pairs, jj);
                    lemma_fills_sum_prefix_bound(here_pairs, jj);
                    assert(here_pairs.skip(jj)[0] == here_pairs[jj]);
                    assert(here_pairs.skip(jj).drop_first() =~= here_pairs.skip(jj + 1));
                    lemma_pair_sum_nonneg(here_pairs.skip(jj + 1));
                    assert(fills_sum(here_pairs.skip(jj)) == fq + fills_sum(
                        here_pairs.skip(jj + 1),
                    ));
                    assert(fills_total(here.take(jj)) + fq <= fills_sum(here_pairs));
                }
                let buyer_id: OrderId;
                let seller_id: OrderId;
                match order.side {
                    Side::Buy => {
                        buyer_id = order.id;
                        seller_id = rid;
                    },
                    Side::Sell => {
                        buyer_id = rid;
                        seller_id = order.id;
                    },
                }
                let trade = Trade::new(order.symbol.clone(), buyer_id, seller_id, lvl_price, fq);
                trades.push(trade);
                order.remaining_quantity = order.remaining_quantity - fq;
                order.filled_quantity = order.filled_quantity + fq;
                if order.remaining_quantity == 0 {
                    order.status = OrderStatus::Filled;
                } else {
                    order.status = OrderStatus::PartiallyFilled;
                }
                if rrem == 0 {
                    locations.unregister(rid);
                }
                proof {
                    let jj = j as int;
                    assert(here.take(jj + 1) =~= here.take(jj).push(here[jj]));
                    lemma_fills_total_push(here.take(jj), here[jj]);
                    assert(here[jj] == (lvl_price, here_pairs[jj].0, here_pairs[jj].1));
                    assert(here[jj].1.id == rid);
                    assert(here[jj].1.remaining_quantity == rrem);
                    assert(here[jj].2 == fq);
                    assert(fills_total(here.take(jj + 1)) == fills_total(here.take(jj)) + fq);
                    lemma_fills_total_nonneg(faccc);
                    lemma_fills_total_nonneg(here.take(jj));
                    let s_old = fills_total(faccc) + fills_total(here.take(jj));
                    let s_new = fills_total(faccc) + fills_total(here.take(jj + 1));
                    assert(s_new == s_old + fq);
                    assert(s_new > 0);
                    assert(order.remaining_quantity == oentry.remaining_quantity - fq);
                    assert(order.filled_quantity == oentry.filled_quantity + fq);
                    assert(oentry == if s_old == 0 {
                        ord0
                    } else {
                        spec_filled(ord0, s_old as Quantity)
                    });
                    assert(oentry.remaining_quantity == ord0.remaining_quantity - s_old);
                    assert(oentry.filled_quantity == ord0.filled_quantity + s_old);
                    assert(order.remaining_quantity == ord0.remaining_quantity - s_new);
                    assert(order.filled_quantity == ord0.filled_quantity + s_new);
                    assert(*order == spec_filled(ord0, s_new as Quantity));
                    assert(faccc + here.take(jj + 1) =~= (faccc + here.take(jj)).push(here[jj]));
                    assert forall|x: OrderId| locations.spec_has(x) <==> (loc0.spec_has(x)
                        && !spec_fully_filled(faccc + here.take(jj + 1), x)) by {
                        lemma_fully_filled_push(faccc + here.take(jj), here[jj], x);
                        assert(spec_fully_filled(faccc + here.take(jj + 1), x)
                            == spec_fully_filled((faccc + here.take(jj)).push(here[jj]), x));
                        assert(spec_fully_filled((faccc + here.take(jj)).push(here[jj]), x) == (
                        spec_fully_filled(faccc + here.take(jj), x) || (rid == x && rrem == 0)));
                        assert(locentry.spec_has(x) == (loc0.spec_has(x) && !spec_fully_filled(
                            faccc + here.take(jj),
                            x,
                        )));
                        if rrem == 0 {
                            assert(locations.spec_has(x) == (locentry.spec_has(x) && x != rid));
                        } else {
                            assert(*locations == locentry);
                        }
                    }
                    assert(trades@[faccc.len() + jj] == trade);
                    assert(trade_matches_fill(trade, ord0, here[jj]));
                }
                j = j + 1;
            }
            proof {
                let jn = n as int;
                assert(here.take(jn) =~= here);
                facc = faccc + here;
                assert(facc.len() == faccc.len() + n);
                assert forall|i: int| 0 <= i < facc.len() implies trade_matches_fill(
                    #[trigger] trades@[i],
                    ord0,
                    facc[i],
                ) by {
                    if i < faccc.len() {
                        assert(facc[i] == faccc[i]);
                    } else {
                        assert(facc[i] == here[i - faccc.len()]);
                        assert(trade_matches_fill(
                            trades@[faccc.len() + (i - faccc.len())],
                            ord0,
                            here[i - faccc.len()],
                        ));
                    }
                }
                assert(fills_total(here.take(jn)) == fills_total(here));
                // reconnect the side view
                let lvafter = side_view(opposite_levels@);
                if level_emptied {
                    assert(lvafter =~= lvc.drop_first());
                    assert(queue_after_take(q0, want).len() == 0);
                    assert(want >= avail) by {
                        lemma_take_totals(q0, want, lvl_price);
                        if want < avail {
                            assert(sum_remaining(queue_after_take(q0, want)) == avail - want);
                            assert(queue_after_take(q0, want).len() > 0) by {
                                if queue_after_take(q0, want).len() == 0 {
                                    assert(sum_remaining(queue_after_take(q0, want)) == 0);
                                }
                            }
                        }
                    }
                    lemma_take_all(q0, want, lvl_price);
                    assert(here_pairs.len() == q0.len());
                    assert(fills_sum(here_pairs) == avail);
                    lemma_side_model_drop(lvc, lside);
                    // match_fills unfolds by one level
                    assert(match_fills(lvc, ord0.side, ord0.price, is_market, want) == here
                        + match_fills(lvafter, ord0.side, ord0.price, is_market, (want
                        - avail) as Quantity));
                    assert(levels_after_match(lvc, ord0.side, ord0.price, is_market, want)
                        == levels_after_match(lvafter, ord0.side, ord0.price, is_market, (want
                        - avail) as Quantity));
                    assert(order.remaining_quantity == want - avail);
                    assert forall|i: int| 0 <= i < opposite_levels@.len() implies (
                    #[trigger] opposite_levels@[i]).wf() by {
                        assert(opposite_levels@ =~= vecc.drop_first());
                        assert(opposite_levels@[i] == vecc[i + 1]);
                        assert(vecc[i + 1].wf());
                    }
                } else {
                    assert(want < avail) by {
                        if want >= avail {
                            lemma_take_all(q0, want, lvl_price);
                        }
                    }
                    assert(lvafter =~= lvc.update(
                        0,
                        (lvl_price, queue_after_take(q0, want)),
                    ));
                    lemma_after_head_wf(lvc, want, lside);
                    assert(fills_sum(here_pairs) == want);
                    assert(order.remaining_quantity == 0);
                    assert(match_fills(lvc, ord0.side, ord0.price, is_market, want) == here);
                    assert(levels_after_match(lvc, ord0.side, ord0.price, is_market, want)
                        == lvafter);
                    assert(match_fills(lvafter, ord0.side, ord0.price, is_market, 0)
                        =~= Seq::<(Price, Order, Quantity)>::empty());
                    assert forall|i: int| 0 <= i < opposite_levels@.len() implies (
                    #[trigger] opposite_levels@[i]).wf() by {
                        if i > 0 {
                            assert(opposite_levels@[i] == vecc[i]);
                            assert(vecc[i].wf());
                        }
                    }
                }
                assert((faccc + (here + match_fills(
                    side_view(opposite_levels@),
                    ord0.side,
                    ord0.price,
                    is_market,
                    order.remaining_quantity,
                ))) =~= (facc + match_fills(
                    side_view(opposite_levels@),
                    ord0.side,
                    ord0.price,
                    is_market,
                    order.remaining_quantity,
                )));
                lemma_fills_total_concat(faccc, here);
                assert(fills_total(here) == fills_sum(here_pairs));
            }
        }
        proof {
            assert(match_fills(
                side_view(opposite_levels@),
                ord0.side,
                ord0.price,
                is_market,
                order.remaining_quantity,
            ) =~= Seq::<(Price, Order, Quantity)>::empty());
            assert(facc + Seq::<(Price, Order, Quantity)>::empty() =~= facc);
            assert(facc == match_fills(lv0, ord0.side, ord0.price, is_market, w0));
        }
        trades
    }

    /// Match a limit order: trade at permitted prices only.
    pub(crate) fn match_limit_order(
        order: &mut Order,
        opposite_levels: &mut Vec<PriceLevel>,
        locations: &mut LocationTable,
    ) -> (trades: Vec<Trade>)
        requires
            old(order).quantities_ok(),
            side_ok(old(opposite_levels)@, opposite(old(order).side)),
            old(locations).wf(),
        ensures
            final(order).quantities_ok(),
            side_ok(final(opposite_levels)@, opposite(old(order).side)),
            final(locations).wf(),
            *final(order) == matched_aggressor(
                *old(order),
                side_view(old(opposite_levels)@),
                false,
            ),
            match_post(
                *old(order),
                side_view(old(opposite_levels)@),
                side_view(final(opposite_levels)@),
                *old(locations),
                *final(locations),
                trades@,
                false,
            ),
    {
        Self::match_core(order, opposite_levels, locations, false)
    }

    /// Match a market order: trade at any available price.
    pub(crate) fn match_market_order(
        order: &mut Order,
        opposite_levels: &mut Vec<PriceLevel>,
        locations: &mut LocationTable,
    ) -> (trades: Vec<Trade>)
        requires
            old(order).quantities_ok(),
            side_ok(old(opposite_levels)@, opposite(old(order).side)),
            old(locations).wf(),
        ensures
            final(order).quantities_ok(),
            side_ok(final(opposite_levels)@, opposite(old(order).side)),
            final(locations).wf(),
            *final(order) == matched_aggressor(
                *old(order),
                side_view(old(opposite_levels)@),
                true,
            ),
            match_post(
                *old(order),
                side_view(old(opposite_levels)@),
                side_view(final(opposite_levels)@),
                *old(locations),
                *final(locations),
                trades@,
                true,
            ),
    {
        Self::match_core(order, opposite_levels, locations, true)
    }

    /// Match an immediate-or-cancel order: like a limit order, but any
    /// unfilled remainder is cancelled rather than rested.
    pub(crate) fn match_ioc_order(
        order: &mut Order,
        opposite_levels: &mut Vec<PriceLevel>,
        locations: &mut LocationTable,
    ) -> (trades: Vec<Trade>)
        requires
            old(order).quantities_ok(),
            side_ok(old(opposite_levels)@, opposite(old(order).side)),
            old(locations).wf(),
        ensures
            final(order).quantities_ok(),
            side_ok(final(opposite_levels)@, opposite(old(order).side)),
            final(locations).wf(),
            *final(order) == spec_cancel_residual(
                matched_aggressor(*old(order), side_view(old(opposite_levels)@), false),
            ),
            match_post(
                *old(order),
                side_view(old(opposite_levels)@),
                side_view(final(opposite_levels)@),
                *old(locations),
                *final(locations),
                trades@,
                false,
            ),
    {
        let trades = Self::match_core(order, opposite_levels, locations, false);
        if order.remaining_quantity > 0 {
            order.cancel();
        }
        trades
    }

    /// Match a fill-or-kill order: first check that the whole quantity can
    /// trade at permitted prices; if not, cancel without touching the book.
    pub(crate) fn match_fok_order(
        order: &mut Order,
        opposite_levels: &mut Vec<PriceLevel>,
        locations: &mut LocationTable,
    ) -> (trades: Vec<Trade>)
        requires
            old(order).quantities_ok(),
            side_ok(old(opposite_levels)@, opposite(old(order).side)),
            old(locations).wf(),
        ensures
            final(order).quantities_ok(),
            side_ok(final(opposite_levels)@, opposite(old(order).side)),
            final(locations).wf(),
            ({
                let depth = eligible_depth(
                    side_view(old(opposite_levels)@),
                    old(order).side,
                    old(order).price,
                    false,
                );
                if depth < old(order).remaining_quantity {
                    &&& trades@.len() == 0
                    &&& *final(opposite_levels) == *old(opposite_levels)
                    &&& *final(locations) == *old(locations)
                    &&& *final(order) == (Order {
                        status: OrderStatus::Cancelled,
                        ..*old(order)
                    })
                } else {
                    &&& *final(order) == matched_aggressor(
                        *old(order),
                        side_view(old(opposite_levels)@),
                        false,
                    )
                    &&& match_post(
                        *old(order),
                        side_view(old(opposite_levels)@),
                        side_view(final(opposite_levels)@),
                        *old(locations),
                        *final(locations),
                        trades@,
                        false,
                    )
                }
            }),
    {
        let available = Self::calculate_available_quantity(order, opposite_levels);
        if available < order.remaining_quantity {
            order.cancel();
            return Vec::new();
        }
        Self::match_core(order, opposite_levels, locations, false)
    }

    /// Match an incoming order against the opposite side of the book,
    /// dispatching on its type; stop orders are rejected untouched.
    pub fn match_order(
        order: &mut Order,
        opposite_levels: &mut Vec<PriceLevel>,
        locations: &mut LocationTable,
    ) -> (r: Result<Vec<Trade>, OrderBookError>)
        requires
            old(order).quantities_ok(),
            side_ok(old(opposite_levels)@, opposite(old(order).side)),
            old(locations).wf(),
        ensures
            final(order).quantities_ok(),
            side_ok(final(opposite_levels)@, opposite(old(order).side)),
            final(locations).wf(),
            r is Ok <==> !(old(order).order_type == OrderType::Stop || old(
                order,
            ).order_type matches OrderType::StopLimit { .. }),
            match r {
                Ok(trades) => match old(order).order_type {
                    OrderType::Market => {
                        &&& *final(order) == matched_aggressor(
                            *old(order),
                            side_view(old(opposite_levels)@),
                            true,
                        )
                        &&& match_post(
                            *old(order),
                            side_view(old(opposite_levels)@),
                            side_view(final(opposite_levels)@),
                            *old(locations),
                            *final(locations),
                            trades@,
                            true,
                        )
                    },
                    OrderType::Limit => {
                        &&& *final(order) == matched_aggressor(
                            *old(order),
                            side_view(old(opposite_levels)@),
                            false,
                        )
                        &&& match_post(
                            *old(order),
                            side_view(old(opposite_levels)@),
                            side_view(final(opposite_levels)@),
                            *old(locations),
                            *final(locations),
                            trades@,
                            false,
                        )
                    },
                    OrderType::ImmediateOrCancel => {
                        &&& *final(order) == spec_cancel_residual(
                            matched_aggressor(
                                *old(order),
                                side_view(old(opposite_levels)@),
                                false,
                            ),
                        )
                        &&& match_post(
                            *old(order),
                            side_view(old(opposite_levels)@),
                            side_view(final(opposite_levels)@),
                            *old(locations),
                            *final(locations),
                            trades@,
                            false,
                        )
                    },
                    OrderType::FillOrKill => {
                        let depth = eligible_depth(
                            side_view(old(opposite_levels)@),
                            old(order).side,
                            old(order).price,
                            false,
                        );
                        if depth < old(order).remaining_quantity {
                            &&& trades@.len() == 0
                            &&& *final(opposite_levels) == *old(opposite_levels)
                            &&& *final(locations) == *old(locations)
                            &&& *final(order) == (Order {
                                status: OrderStatus::Cancelled,
                                ..*old(order)
                            })
                        } else {
                            &&& *final(order) == matched_aggressor(
                                *old(order),
                                side_view(old(opposite_levels)@),
                                false,
                            )
                            &&& match_post(
                                *old(order),
                                side_view(old(opposite_levels)@),
                                side_view(final(opposite_levels)@),
                                *old(locations),
                                *final(locations),
                                trades@,
                                false,
                            )
                        }
                    },
                    OrderType::Stop => false,
                    OrderType::StopLimit { .. } => false,
                },
                Err(e) => {
                    &&& e == OrderBookError::InvalidOrderType
                    &&& *final(order) == *old(order)
                    &&& *final(opposite_levels) == *old(opposite_levels)
                    &&& *final(locations) == *old(locations)
                },
            },
    {
        match order.order_type {
            OrderType::Market => Ok(Self::match_market_order(order, opposite_levels, locations)),
            OrderType::Limit => Ok(Self::match_limit_order(order, opposite_levels, locations)),
            OrderType::ImmediateOrCancel => Ok(
                Self::match_ioc_order(order, opposite_levels, locations),
            ),
            OrderType::FillOrKill => Ok(Self::match_fok_order(order, opposite_levels, locations)),
            OrderType::Stop => Err(OrderBookError::InvalidOrderType),
            OrderType::StopLimit { .. } => Err(OrderBookError::InvalidOrderType),
        }
    }

    /// Total quantity available to an order over the price-eligible prefix of
    /// the opposite side, saturating at the largest representable quantity.
    pub fn calculate_available_quantity(
        order: &Order,
        opposite_levels: &Vec<PriceLevel>,
    ) -> (r: Quantity)
        requires
            forall|i: int| 0 <= i < opposite_levels@.len() ==> (#[trigger] opposite_levels@[i]).wf(),
        ensures
            ({
                let depth = eligible_depth(
                    side_view(opposite_levels@),
                    order.side,
                    order.price,
                    false,
                );
                r == if depth <= u64::MAX {
                    depth
                } else {
                    u64::MAX as int
                }
            }),
    {
        let ghost lv = side_view(opposite_levels@);
        let mut total: u64 = 0;
        let ghost mut dp: int = 0;
        let n = opposite_levels.len();
        let mut i: usize = 0;
        proof {
            assert(lv.skip(0) =~= lv);
        }
        while i < n
            invariant
                n == opposite_levels@.len(),
                i <= n,
                lv == side_view(opposite_levels@),
                forall|k: int| 0 <= k < opposite_levels@.len() ==> (#[trigger] opposite_levels@[k]).wf(),
                dp >= 0,
                total == if dp <= u64::MAX {
                    dp
                } else {
                    u64::MAX as int
                },
                forall|k: int| 0 <= k < i ==> spec_price_permits(order.side, order.price, lv[k].0),
                eligible_depth(lv, order.side, order.price, false) == dp + eligible_depth(
                    lv.skip(i as int),
                    order.side,
                    order.price,
                    false,
                ),
            decreases n - i,
        {
            let lvl_price = opposite_levels[i].price;
            proof {
                assert(lv[i as int] == (opposite_levels@[i as int].price, opposite_levels@[i as int].queue()));
            }
            if !Self::price_permits(order.side, order.price, lvl_price) {
                proof {
                    assert(lv.skip(i as int)[0] == lv[i as int]);
                    assert(eligible_depth(lv.skip(i as int), order.side, order.price, false) == 0);
                }
                return total;
            }
            let lvl_total = opposite_levels[i].total_quantity();
            proof {
                assert(opposite_levels@[i as int].wf());
                assert(lvl_total == sum_remaining(lv[i as int].1));
                lemma_sum_nonneg(lv[i as int].1);
                assert(lv.skip(i as int)[0] == lv[i as int]);
                assert(lv.skip(i as int).drop_first() =~= lv.skip(i as int + 1));
                assert(eligible_depth(lv.skip(i as int), order.side, order.price, false)
                    == sum_remaining(lv[i as int].1) + eligible_depth(
                    lv.skip(i as int + 1),
                    order.side,
                    order.price,
                    false,
                ));
            }
            total = total.saturating_add(lvl_total);
            proof {
                dp = dp + lvl_total;
            }
            i = i + 1;
        }
        proof {
            assert(lv.skip(n as int) =~= Seq::<LevelModel>::empty());
            assert(eligible_depth(lv.skip(n as int), order.side, order.price, false) == 0);
        }
        total
    }

    /// Whether two orders would trade against the same client.
    pub fn is_self_trade(order1: &Order, order2: &Order) -> (r: bool)
        ensures
            r == spec_is_self_trade(*order1, *order2),
    {
        match (&order1.client_id, &order2.client_id) {
            (Some(c1), Some(c2)) => c1.eq(c2),
            _ => false,
        }
    }

    /// The price a trade between an aggressive and a passive order executes
    /// at: always the passive (resting) order's price.
    pub fn calculate_trade_price(aggressive_order: &Order, passive_order: &Order) -> (r: Price)
        ensures
            r == passive_order.price,
    {
        let _ = aggressive_order;
        passive_order.price
    }

    /// Check that an order may enter the matcher.
    pub fn validate_order_for_matching(order: &Order) -> (r: Result<(), OrderBookError>)
        ensures
            r == spec_validate_for_matching(*order),
    {
        if order.remaining_quantity == 0 {
            return Err(OrderBookError::InvalidQuantity);
        }
        if order.is_complete() {
            return Err(OrderBookError::InvalidOrderState);
        }
        match order.order_type {
            OrderType::Market => Ok(()),
            OrderType::Limit | OrderType::ImmediateOrCancel | OrderType::FillOrKill => {
                if order.price == 0 {
                    return Err(OrderBookError::InvalidPrice);
                }
                Ok(())
            },
            OrderType::Stop | OrderType::StopLimit { .. } => Err(
                OrderBookError::InvalidOrderType,
            ),
        }
    }

    /// Whether a level should be removed from the book after matching.
    pub fn should_cleanup_level(level: &PriceLevel) -> (r: bool)
        ensures
            r == (level.spec_count() == 0),
    {
        level.is_empty()
    }
}

/// What `validate_order_for_matching` decides for each order.
pub open spec fn spec_validate_for_matching(o: Order) -> Result<(), OrderBookError> {
    if o.remaining_quantity == 0 {
        Err(OrderBookError::InvalidQuantity)
    } else if o.spec_is_terminal() {
        Err(OrderBookError::InvalidOrderState)
    } else {
        match o.order_type {
            OrderType::Market => Ok(()),
            OrderType::Limit | OrderType::ImmediateOrCancel | OrderType::FillOrKill => if o.price
                == 0 {
                Err(OrderBookError::InvalidPrice)
            } else {
                Ok(())
            },
            OrderType::Stop | OrderType::StopLimit { .. } => Err(
                OrderBookError::InvalidOrderType,
            ),
        }
    }
}

/// Whether the two orders carry the same non-empty client identifier.
pub open spec fn spec_is_self_trade(a: Order, b: Order) -> bool {
    a.client_id matches Some(c1) && (b.client_id matches Some(c2) && c1@ == c2@)
}

/// A pair-fill total is never negative.
pub proof fn lemma_pair_sum_nonneg(fs: Seq<(Order, Quantity)>)
    ensures
        fills_sum(fs) >= 0,
    decreases fs.len(),
{
    if fs.len() > 0 {
        lemma_pair_sum_nonneg(fs.drop_first());
    }
}

/// Partial total of the first `k` fills of a pair list.
pub open spec fn fills_sum_prefix(fs: Seq<(Order, Quantity)>, k: int) -> int
    decreases k,
{
    if k <= 0 {
        0
    } else {
        fills_sum_prefix(fs, k - 1) + fs[k - 1].1
    }
}

/// One step of the partial total.
pub proof fn lemma_fills_sum_prefix_step(fs: Seq<(Order, Quantity)>, k: int)
    requires
        0 <= k < fs.len(),
    ensures
        fills_sum_prefix(fs, k + 1) == fills_sum_prefix(fs, k) + fs[k].1,
{
}

/// Partial totals never exceed the full total.
pub proof fn lemma_fills_sum_prefix_bound(fs: Seq<(Order, Quantity)>, k: int)
    requires
        0 <= k <= fs.len(),
    ensures
        fills_sum_prefix(fs, k) + fills_sum(fs.skip(k)) == fills_sum(fs),
    decreases k,
{
    if k == 0 {
        assert(fs.skip(0) =~= fs);
    } else {
        lemma_fills_sum_prefix_bound(fs, k - 1);
        assert(fs.skip(k - 1).drop_first() =~= fs.skip(k));
        assert(fs.skip(k - 1)[0] == fs[k - 1]);
    }
}

/// Market context snapshot used by order handling around the engine.
#[derive(Debug)]
pub struct TradeContext {
    pub symbol: String,
    pub best_bid: Option<Price>,
    pub best_ask: Option<Price>,
    pub last_trade_price: Option<Price>,
    pub market_open: bool,
}

impl TradeContext {
    /// A fresh context with no market data yet.
    pub fn new(symbol: String) -> (r: TradeContext)
        ensures
            r.symbol == symbol,
            r.best_bid is None,
            r.best_ask is None,
            r.last_trade_price is None,
            r.market_open,
    {
        TradeContext {
            symbol,
            best_bid: None,
            best_ask: None,
            last_trade_price: None,
            market_open: true,
        }
    }

    /// Take a new top-of-book reading; the last trade price is kept when the
    /// reading carries none.
    pub fn update(
        &mut self,
        best_bid: Option<Price>,
        best_ask: Option<Price>,
        last_trade: Option<Price>,
    )
        ensures
            final(self).symbol == old(self).symbol,
            final(self).market_open == old(self).market_open,
            final(self).best_bid == best_bid,
            final(self).best_ask == best_ask,
            final(self).last_trade_price == if last_trade is Some {
                last_trade
            } else {
                old(self).last_trade_price
            },
    {
        self.best_bid = best_bid;
        self.best_ask = best_ask;
        if let Some(price) = last_trade {
            self.last_trade_price = Some(price);
        }
    }

    /// The midpoint of the spread, rounded down.
    pub fn mid_price(&self) -> (r: Option<Price>)
        ensures
            r == match (self.best_bid, self.best_ask) {
                (Some(bid), Some(ask)) => Some((((bid + ask) as int / 2) as Price)),
                _ => Option::<Price>::None,
            },
    {
        match (self.best_bid, self.best_ask) {
            (Some(bid), Some(ask)) => {
                let wide = ((bid as u128) + (ask as u128)) / 2;
                proof {
                    assert((bid + ask) / 2 <= u64::MAX);
                }
                Some(wide as u64)
            },
            _ => None,
        }
    }

    /// The bid-ask spread, when the book is not crossed.
    pub fn spread(&self) -> (r: Option<Price>)
        ensures
            r == match (self.best_bid, self.best_ask) {
                (Some(bid), Some(ask)) => if ask > bid {
                    Some((ask - bid) as Price)
                } else {
                    Option::<Price>::None
                },
                _ => Option::<Price>::None,
            },
    {
        match (self.best_bid, self.best_ask) {
            (Some(bid), Some(ask)) => {
                if ask > bid {
                    Some(ask - bid)
                } else {
                    None
                }
            },
            _ => None,
        }
    }
}

} // verus!

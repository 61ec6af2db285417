//! The order book: two price-ordered sides, an order location table, and
//! aggregate statistics, kept consistent by every public operation.

use vstd::prelude::*;

use crate::error::OrderBookError;
use crate::locations::LocationTable;
use crate::matching::LevelModel;
use crate::matching::MatchingEngine;
use crate::matching::level_before;
use crate::matching::side_distinct_ids;
use crate::matching::side_has_id;
use crate::matching::side_model_wf;
use crate::matching::side_ok;
use crate::matching::side_price_of;
use crate::matching::side_view;
use crate::matching::lemma_side_price_unique;
use crate::matching::fills_total;
use crate::matching::levels_after_match;
use crate::matching::match_fills;
use crate::matching::matched_aggressor;
use crate::matching::spec_fully_filled;
use crate::matching::spec_price_permits;
use crate::matching::trade_matches_fill;
use crate::matching::lemma_match_wf;
use crate::matching::lemma_match_fill_attrs;
use crate::matching::lemma_fills_total_nonneg;
use crate::price_level::PriceLevel;
use crate::price_level::has_id;
use crate::price_level::idx_of;
use crate::price_level::queue_wf;
use crate::price_level::resting_ok;
use crate::price_level::sum_remaining;
use crate::price_level::lemma_sum_nonneg;
use crate::types::BookSnapshot;
use crate::types::MarketEvent;
use crate::types::Order;
use crate::types::OrderId;
use crate::types::OrderLocation;
use crate::types::OrderStatus;
use crate::types::OrderType;
use crate::types::Price;
use crate::types::PriceLevelInfo;
use crate::types::Quantity;
use crate::types::Side;
use crate::types::Trade;
use crate::types::opposite;
use crate::time::wall_clock_nanos;

verus! {

/// Whether some level on the side carries this price.
pub open spec fn side_has_price(levels: Seq<LevelModel>, p: Price) -> bool {
    exists|i: int| 0 <= i < levels.len() && (#[trigger] levels[i]).0 == p
}

/// The index of the level with this price (unique when sorted).
pub open spec fn side_price_idx(levels: Seq<LevelModel>, p: Price) -> int {
    choose|i: int| 0 <= i < levels.len() && (#[trigger] levels[i]).0 == p
}

/// The index of the level holding this order identifier.
pub open spec fn side_level_idx(levels: Seq<LevelModel>, id: OrderId) -> int {
    choose|i: int| 0 <= i < levels.len() && has_id(#[trigger] levels[i].1, id)
}

/// A side model after a new resting order arrives: appended to the queue of
/// its price level, or opening a new level at its sorted position.
pub open spec fn insert_into_side(levels: Seq<LevelModel>, side: Side, order: Order) -> Seq<
    LevelModel,
>
    decreases levels.len(),
{
    if levels.len() == 0 {
        seq![(order.price, seq![order])]
    } else if level_before(side, levels[0].0, order.price) {
        seq![levels[0]] + insert_into_side(levels.drop_first(), side, order)
    } else if levels[0].0 == order.price {
        levels.update(0, (levels[0].0, levels[0].1.push(order)))
    } else {
        seq![(order.price, seq![order])] + levels
    }
}

/// A side model after the order with this identifier leaves: removed from its
/// queue, with the level dropped when the queue empties.
pub open spec fn remove_from_side(levels: Seq<LevelModel>, id: OrderId) -> Seq<LevelModel> {
    let i = side_level_idx(levels, id);
    let q = levels[i].1;
    if q.len() == 1 {
        levels.remove(i)
    } else {
        levels.update(i, (levels[i].0, q.remove(idx_of(q, id))))
    }
}

/// The location table lists exactly the orders resting on the two sides,
/// each entry pointing at the level that holds its order, and no identifier
/// rests on both sides.
pub open spec fn book_maps_ok(
    loc: LocationTable,
    bids: Seq<LevelModel>,
    asks: Seq<LevelModel>,
) -> bool {
    &&& loc.wf()
    &&& forall|x: OrderId|
        #![trigger loc.spec_has(x)]
        loc.spec_has(x) <==> (side_has_id(bids, x) || side_has_id(asks, x))
    &&& forall|x: OrderId|
        #![trigger loc.spec_loc(x)]
        loc.spec_has(x) ==> match loc.spec_loc(x).side {
            Side::Buy => side_has_id(bids, x) && side_price_of(bids, x) == loc.spec_loc(x).price
                && !side_has_id(asks, x),
            Side::Sell => side_has_id(asks, x) && side_price_of(asks, x) == loc.spec_loc(x).price
                && !side_has_id(bids, x),
        }
}

/// The book is not crossed: the best bid is below the best ask.
pub open spec fn uncrossed(bids: Seq<LevelModel>, asks: Seq<LevelModel>) -> bool {
    bids.len() > 0 && asks.len() > 0 ==> bids[0].0 < asks[0].0
}

/// What inserting a resting order does to a well-formed side: the side stays
/// well formed, gains exactly that order's identifier, keeps every other
/// order's price, and its best price only improves to the order's price.
#[verifier::spinoff_prover]
#[verifier::rlimit(100)]
pub proof fn lemma_insert_side(levels: Seq<LevelModel>, side: Side, order: Order)
    requires
        side_model_wf(levels, side),
        side_distinct_ids(levels),
        resting_ok(order, order.price),
        order.side == side,
        order.price > 0,
        !side_has_id(levels, order.id),
    ensures
        ({
            let after = insert_into_side(levels, side, order);
            &&& side_model_wf(after, side)
            &&& side_distinct_ids(after)
            &&& forall|x: OrderId|
                side_has_id(after, x) <==> (side_has_id(levels, x) || x == order.id)
            &&& forall|x: OrderId|
                side_has_id(levels, x) ==> side_price_of(after, x) == side_price_of(levels, x)
            &&& side_price_of(after, order.id) == order.price
            &&& after.len() > 0
            &&& after[0].0 == if levels.len() > 0 && level_before(side, levels[0].0, order.price) {
                levels[0].0
            } else {
                order.price
            }
            &&& forall|j: int|
                0 <= j < after.len() ==> ((#[trigger] after[j]).0 == order.price || side_has_price(
                    levels,
                    after[j].0,
                ))
        }),
    decreases levels.len(),
{
    let after = insert_into_side(levels, side, order);
    if levels.len() == 0 {
        assert(after == seq![(order.price, seq![order])]);
        assert(after[0].1 == seq![order]);
        assert(after[0].1[0] == order);
        assert(queue_wf(after[0].1, order.price));
        assert(has_id(after[0].1, order.id));
        lemma_side_price_unique(after, 0, order.id);
        assert forall|x: OrderId| side_has_id(after, x) implies (side_has_id(levels, x) || x
            == order.id) by {
            let i = choose|i: int| 0 <= i < after.len() && has_id(#[trigger] after[i].1, x);
            let a = choose|a: int| 0 <= a < after[i].1.len() && after[i].1[a].id == x;
            assert(after[0].1[0].id == order.id);
        }
    } else if level_before(side, levels[0].0, order.price) {
        let rest = levels.drop_first();
        crate::matching::lemma_side_model_drop(levels, side);
        assert forall|x: OrderId| !side_has_id(rest, x) || side_has_id(levels, x) by {
            if side_has_id(rest, x) {
                let i = choose|i: int| 0 <= i < rest.len() && has_id(#[trigger] rest[i].1, x);
                assert(rest[i] == levels[i + 1]);
                assert(side_has_id(levels, x));
            }
        }
        assert(!side_has_id(rest, order.id));
        lemma_insert_side(rest, side, order);
        let tail = insert_into_side(rest, side, order);
        assert(after == seq![levels[0]] + tail);
        assert(after[0] == levels[0]);
        assert forall|j: int| 0 <= j < after.len() implies ((#[trigger] after[j]).0 == order.price
            || side_has_price(levels, after[j].0)) by {
            if j == 0 {
                assert(side_has_price(levels, levels[0].0));
            } else {
                assert(after[j] == tail[j - 1]);
                if tail[j - 1].0 != order.price {
                    assert(side_has_price(rest, tail[j - 1].0));
                    let i = choose|i: int| 0 <= i < rest.len() && (#[trigger] rest[i]).0 == tail[j - 1].0;
                    assert(rest[i] == levels[i + 1]);
                    assert(side_has_price(levels, tail[j - 1].0));
                }
            }
        }
        // well-formedness of each level and sortedness
        assert forall|i: int| 0 <= i < after.len() implies queue_wf(#[trigger] after[i].1, after[i].0)
            && after[i].1.len() > 0 && after[i].0 > 0 by {
            if i > 0 {
                assert(after[i] == tail[i - 1]);
            }
        }
        assert forall|i: int, j: int| 0 <= i < j < after.len() implies level_before(
            side,
            after[i].0,
            after[j].0,
        ) by {
            if i == 0 {
                assert(after[j] == tail[j - 1]);
                if tail[j - 1].0 == order.price {
                } else {
                    assert(side_has_price(rest, tail[j - 1].0) || tail[j - 1].0 == order.price);
                    if side_has_price(rest, tail[j - 1].0) {
                        let k = choose|k: int|
                            0 <= k < rest.len() && (#[trigger] rest[k]).0 == tail[j - 1].0;
                        assert(rest[k] == levels[k + 1]);
                        assert(level_before(side, levels[0].0, levels[k + 1].0));
                    }
                }
            } else {
                assert(after[i] == tail[i - 1]);
                assert(after[j] == tail[j - 1]);
            }
        }
        assert forall|i: int, j: int|
            0 <= i < after.len() && 0 <= j < after[i].1.len() implies (#[trigger] after[i].1[j]).side
                == side by {
            if i > 0 {
                assert(after[i] == tail[i - 1]);
            } else {
                assert(levels[0].1[j].side == side);
            }
        }
        assert forall|i: int, k: int, a: int, b: int|
            0 <= i < after.len() && 0 <= k < after.len() && 0 <= a < after[i].1.len() && 0 <= b
                < after[k].1.len() && (i != k || a != b) implies (#[trigger] after[i].1[a]).id != (
        #[trigger] after[k].1[b]).id by {
            if i == 0 && k == 0 {
                assert(levels[0].1[a].id != levels[0].1[b].id);
            } else if i == 0 {
                assert(after[k] == tail[k - 1]);
                // the id in the tail is either from rest or the new order
                if side_has_id(rest, after[k].1[b].id) {
                    let m = choose|m: int|
                        0 <= m < rest.len() && has_id(#[trigger] rest[m].1, after[k].1[b].id);
                    let c = choose|c: int|
                        0 <= c < rest[m].1.len() && rest[m].1[c].id == after[k].1[b].id;
                    assert(rest[m] == levels[m + 1]);
                    assert(levels[0].1[a].id != levels[m + 1].1[c].id);
                } else {
                    assert(side_has_id(tail, after[k].1[b].id)) by {
                        assert(has_id(tail[k - 1].1, after[k].1[b].id));
                    }
                    assert(after[k].1[b].id == order.id);
                    if levels[0].1[a].id == order.id {
                        assert(has_id(levels[0].1, order.id));
                        assert(side_has_id(levels, order.id));
                    }
                }
            } else if k == 0 {
                assert(after[i] == tail[i - 1]);
                if side_has_id(rest, after[i].1[a].id) {
                    let m = choose|m: int|
                        0 <= m < rest.len() && has_id(#[trigger] rest[m].1, after[i].1[a].id);
                    let c = choose|c: int|
                        0 <= c < rest[m].1.len() && rest[m].1[c].id == after[i].1[a].id;
                    assert(rest[m] == levels[m + 1]);
                    assert(levels[m + 1].1[c].id != levels[0].1[b].id);
                } else {
                    assert(side_has_id(tail, after[i].1[a].id)) by {
                        assert(has_id(tail[i - 1].1, after[i].1[a].id));
                    }
                    assert(after[i].1[a].id == order.id);
                    if levels[0].1[b].id == order.id {
                        assert(has_id(levels[0].1, order.id));
                        assert(side_has_id(levels, order.id));
                    }
                }
            } else {
                assert(after[i] == tail[i - 1]);
                assert(after[k] == tail[k - 1]);
            }
        }
        // identifiers
        assert forall|x: OrderId| side_has_id(after, x) implies (side_has_id(levels, x) || x
            == order.id) by {
            let i = choose|i: int| 0 <= i < after.len() && has_id(#[trigger] after[i].1, x);
            if i == 0 {
                assert(has_id(levels[0].1, x));
                assert(side_has_id(levels, x));
            } else {
                assert(after[i] == tail[i - 1]);
                assert(side_has_id(tail, x));
                if side_has_id(rest, x) {
                    let m = choose|m: int| 0 <= m < rest.len() && has_id(#[trigger] rest[m].1, x);
                    assert(rest[m] == levels[m + 1]);
                    assert(side_has_id(levels, x));
                }
            }
        }
        assert forall|x: OrderId| (side_has_id(levels, x) || x == order.id) implies side_has_id(
            after,
            x,
        ) by {
            if x == order.id {
                assert(side_has_id(tail, x));
                let m = choose|m: int| 0 <= m < tail.len() && has_id(#[trigger] tail[m].1, x);
                assert(after[m + 1] == tail[m]);
                assert(side_has_id(after, x));
            } else {
                let i = choose|i: int| 0 <= i < levels.len() && has_id(#[trigger] levels[i].1, x);
                if i == 0 {
                    assert(has_id(after[0].1, x));
                } else {
                    assert(rest[i - 1] == levels[i]);
                    assert(side_has_id(rest, x));
                    assert(side_has_id(tail, x));
                    let m = choose|m: int| 0 <= m < tail.len() && has_id(#[trigger] tail[m].1, x);
                    assert(after[m + 1] == tail[m]);
                }
            }
        }
        // prices of survivors
        assert forall|x: OrderId| side_has_id(levels, x) implies #[trigger] side_price_of(
            after,
            x,
        ) == side_price_of(levels, x) by {
            let i = choose|i: int| 0 <= i < levels.len() && has_id(#[trigger] levels[i].1, x);
            lemma_side_price_unique(levels, i, x);
            if i == 0 {
                lemma_side_price_unique(after, 0, x);
            } else {
                assert(rest[i - 1] == levels[i]);
                assert(side_has_id(rest, x));
                lemma_side_price_unique(rest, i - 1, x);
                assert(side_price_of(tail, x) == side_price_of(rest, x));
                let m = choose|m: int| 0 <= m < tail.len() && has_id(#[trigger] tail[m].1, x);
                lemma_side_price_unique(tail, m, x);
                assert(after[m + 1] == tail[m]);
                lemma_side_price_unique(after, m + 1, x);
            }
        }
        assert(side_price_of(after, order.id) == order.price) by {
            assert(side_price_of(tail, order.id) == order.price);
            let m = choose|m: int| 0 <= m < tail.len() && has_id(#[trigger] tail[m].1, order.id);
            lemma_side_price_unique(tail, m, order.id);
            assert(after[m + 1] == tail[m]);
            lemma_side_price_unique(after, m + 1, order.id);
        }
    } else if levels[0].0 == order.price {
        let q2 = levels[0].1.push(order);
        assert(after == levels.update(0, (levels[0].0, q2)));
        assert(after[0] == (levels[0].0, q2));
        assert(q2[q2.len() - 1] == order);
        assert forall|a: int| 0 <= a < q2.len() implies resting_ok(#[trigger] q2[a], levels[0].0) by {
            if a < levels[0].1.len() {
                assert(q2[a] == levels[0].1[a]);
            }
        }
        assert forall|a: int, b: int| 0 <= a < b < q2.len() implies q2[a].id != q2[b].id by {
            if b < levels[0].1.len() {
            } else {
                assert(q2[b] == order);
                assert(q2[a] == levels[0].1[a]);
                if levels[0].1[a].id == order.id {
                    assert(has_id(levels[0].1, order.id));
                    assert(side_has_id(levels, order.id));
                }
            }
        }
        assert forall|i: int| 0 <= i < after.len() implies queue_wf(#[trigger] after[i].1, after[i].0)
            && after[i].1.len() > 0 && after[i].0 > 0 by {
            if i > 0 {
                assert(after[i] == levels[i]);
            }
        }
        assert forall|i: int, j: int| 0 <= i < j < after.len() implies level_before(
            side,
            after[i].0,
            after[j].0,
        ) by {
            assert(after[i].0 == levels[i].0);
            assert(after[j].0 == levels[j].0);
        }
        assert forall|i: int, j: int|
            0 <= i < after.len() && 0 <= j < after[i].1.len() implies (#[trigger] after[i].1[j]).side
                == side by {
            if i > 0 {
                assert(after[i] == levels[i]);
                assert(levels[i].1[j].side == side);
            } else {
                if j < levels[0].1.len() {
                    assert(q2[j] == levels[0].1[j]);
                    assert(levels[0].1[j].side == side);
                }
            }
        }
        assert forall|i: int, k: int, a: int, b: int|
            0 <= i < after.len() && 0 <= k < after.len() && 0 <= a < after[i].1.len() && 0 <= b
                < after[k].1.len() && (i != k || a != b) implies (#[trigger] after[i].1[a]).id != (
        #[trigger] after[k].1[b]).id by {
            let na = if i == 0 && a == levels[0].1.len() {
                true
            } else {
                false
            };
            let nb = if k == 0 && b == levels[0].1.len() {
                true
            } else {
                false
            };
            if na && nb {
                assert(false);
            } else if na {
                assert(after[i].1[a] == order);
                let bk = if k == 0 {
                    levels[0].1[b]
                } else {
                    levels[k].1[b]
                };
                assert(after[k].1[b] == bk);
                if bk.id == order.id {
                    assert(has_id(levels[k].1, order.id)) by {
                        assert(levels[k].1[b].id == order.id);
                    }
                    assert(side_has_id(levels, order.id));
                }
            } else if nb {
                assert(after[k].1[b] == order);
                let ai = if i == 0 {
                    levels[0].1[a]
                } else {
                    levels[i].1[a]
                };
                assert(after[i].1[a] == ai);
                if ai.id == order.id {
                    assert(has_id(levels[i].1, order.id)) by {
                        assert(levels[i].1[a].id == order.id);
                    }
                    assert(side_has_id(levels, order.id));
                }
            } else {
                assert(after[i].1[a] == levels[i].1[a]);
                assert(after[k].1[b] == levels[k].1[b]);
            }
        }
        assert forall|x: OrderId| side_has_id(after, x) implies (side_has_id(levels, x) || x
            == order.id) by {
            let i = choose|i: int| 0 <= i < after.len() && has_id(#[trigger] after[i].1, x);
            let a = choose|a: int| 0 <= a < after[i].1.len() && after[i].1[a].id == x;
            if i == 0 {
                if a < levels[0].1.len() {
                    assert(levels[0].1[a].id == x);
                    assert(side_has_id(levels, x));
                } else {
                    assert(after[0].1[a] == order);
                }
            } else {
                assert(after[i] == levels[i]);
                assert(side_has_id(levels, x));
            }
        }
        assert forall|x: OrderId| (side_has_id(levels, x) || x == order.id) implies side_has_id(
            after,
            x,
        ) by {
            if x == order.id {
                assert(q2[q2.len() - 1].id == x);
                assert(has_id(after[0].1, x));
            } else {
                let i = choose|i: int| 0 <= i < levels.len() && has_id(#[trigger] levels[i].1, x);
                if i == 0 {
                    let a = choose|a: int| 0 <= a < levels[0].1.len() && levels[0].1[a].id == x;
                    assert(q2[a].id == x);
                    assert(has_id(after[0].1, x));
                } else {
                    assert(after[i] == levels[i]);
                    assert(has_id(after[i].1, x));
                }
            }
        }
        assert forall|x: OrderId| side_has_id(levels, x) implies #[trigger] side_price_of(
            after,
            x,
        ) == side_price_of(levels, x) by {
            let i = choose|i: int| 0 <= i < levels.len() && has_id(#[trigger] levels[i].1, x);
            lemma_side_price_unique(levels, i, x);
            if i == 0 {
                let a = choose|a: int| 0 <= a < levels[0].1.len() && levels[0].1[a].id == x;
                assert(q2[a].id == x);
                assert(has_id(after[0].1, x));
                lemma_side_price_unique(after, 0, x);
            } else {
                assert(after[i] == levels[i]);
                lemma_side_price_unique(after, i, x);
            }
        }
        assert(side_price_of(after, order.id) == order.price) by {
            assert(q2[q2.len() - 1].id == order.id);
            assert(has_id(after[0].1, order.id));
            lemma_side_price_unique(after, 0, order.id);
        }
        assert forall|j: int| 0 <= j < after.len() implies ((#[trigger] after[j]).0 == order.price
            || side_has_price(levels, after[j].0)) by {
            assert(after[j].0 == levels[j].0);
            assert(side_has_price(levels, levels[j].0));
        }
    } else {
        // a fresh best level
        assert(after == seq![(order.price, seq![order])] + levels);
        assert(after[0] == (order.price, seq![order]));
        assert(after[0].1[0] == order);
        assert forall|i: int| 0 <= i < after.len() implies queue_wf(#[trigger] after[i].1, after[i].0)
            && after[i].1.len() > 0 && after[i].0 > 0 by {
            if i > 0 {
                assert(after[i] == levels[i - 1]);
            }
        }
        assert forall|i: int, j: int| 0 <= i < j < after.len() implies level_before(
            side,
            after[i].0,
            after[j].0,
        ) by {
            if i == 0 {
                assert(after[j] == levels[j - 1]);
                // order.price is strictly better than the old best, hence all
                if j == 1 {
                    assert(!level_before(side, levels[0].0, order.price));
                    assert(levels[0].0 != order.price);
                } else {
                    assert(level_before(side, levels[0].0, levels[j - 1].0));
                    assert(!level_before(side, levels[0].0, order.price));
                    assert(levels[0].0 != order.price);
                }
            } else {
                assert(after[i] == levels[i - 1]);
                assert(after[j] == levels[j - 1]);
            }
        }
        assert forall|i: int, j: int|
            0 <= i < after.len() && 0 <= j < after[i].1.len() implies (#[trigger] after[i].1[j]).side
                == side by {
            if i > 0 {
                assert(after[i] == levels[i - 1]);
                assert(levels[i - 1].1[j].side == side);
            }
        }
        assert forall|i: int, k: int, a: int, b: int|
            0 <= i < after.len() && 0 <= k < after.len() && 0 <= a < after[i].1.len() && 0 <= b
                < after[k].1.len() && (i != k || a != b) implies (#[trigger] after[i].1[a]).id != (
        #[trigger] after[k].1[b]).id by {
            if i == 0 && k == 0 {
                assert(false);
            } else if i == 0 {
                assert(after[0].1[a] == order);
                assert(after[k] == levels[k - 1]);
                if levels[k - 1].1[b].id == order.id {
                    assert(has_id(levels[k - 1].1, order.id));
                    assert(side_has_id(levels, order.id));
                }
            } else if k == 0 {
                assert(after[0].1[b] == order);
                assert(after[i] == levels[i - 1]);
                if levels[i - 1].1[a].id == order.id {
                    assert(has_id(levels[i - 1].1, order.id));
                    assert(side_has_id(levels, order.id));
                }
            } else {
                assert(after[i] == levels[i - 1]);
                assert(after[k] == levels[k - 1]);
            }
        }
        assert forall|x: OrderId| side_has_id(after, x) implies (side_has_id(levels, x) || x
            == order.id) by {
            let i = choose|i: int| 0 <= i < after.len() && has_id(#[trigger] after[i].1, x);
            if i == 0 {
                let a = choose|a: int| 0 <= a < after[0].1.len() && after[0].1[a].id == x;
                assert(after[0].1[a] == order);
            } else {
                assert(after[i] == levels[i - 1]);
                assert(side_has_id(levels, x));
            }
        }
        assert forall|x: OrderId| (side_has_id(levels, x) || x == order.id) implies side_has_id(
            after,
            x,
        ) by {
            if x == order.id {
                assert(after[0].1[0].id == x);
                assert(has_id(after[0].1, x));
            } else {
                let i = choose|i: int| 0 <= i < levels.len() && has_id(#[trigger] levels[i].1, x);
                assert(after[i + 1] == levels[i]);
                assert(has_id(after[i + 1].1, x));
            }
        }
        assert forall|x: OrderId| side_has_id(levels, x) implies #[trigger] side_price_of(
            after,
            x,
        ) == side_price_of(levels, x) by {
            let i = choose|i: int| 0 <= i < levels.len() && has_id(#[trigger] levels[i].1, x);
            lemma_side_price_unique(levels, i, x);
            assert(after[i + 1] == levels[i]);
            lemma_side_price_unique(after, i + 1, x);
        }
        assert(side_price_of(after, order.id) == order.price) by {
            assert(has_id(after[0].1, order.id)) by {
                assert(after[0].1[0].id == order.id);
            }
            lemma_side_price_unique(after, 0, order.id);
        }
        assert forall|j: int| 0 <= j < after.len() implies ((#[trigger] after[j]).0 == order.price
            || side_has_price(levels, after[j].0)) by {
            if j > 0 {
                assert(after[j] == levels[j - 1]);
                assert(side_has_price(levels, levels[j - 1].0));
            }
        }
    }
}

/// After one matching pass against the opposite side, the location table
/// still lists exactly the resting orders, with their locations intact, and
/// the book remains uncrossed.
#[verifier::spinoff_prover]
#[verifier::rlimit(100)]
pub proof fn lemma_mid_inv(
    loc0: LocationTable,
    loc1: LocationTable,
    bids0: Seq<LevelModel>,
    asks0: Seq<LevelModel>,
    bids1: Seq<LevelModel>,
    asks1: Seq<LevelModel>,
    aside: Side,
    limit: Price,
    is_market: bool,
    want: Quantity,
)
    requires
        side_model_wf(bids0, Side::Buy),
        side_distinct_ids(bids0),
        side_model_wf(asks0, Side::Sell),
        side_distinct_ids(asks0),
        book_maps_ok(loc0, bids0, asks0),
        uncrossed(bids0, asks0),
        aside == Side::Buy ==> bids1 == bids0 && asks1 == crate::matching::levels_after_match(
            asks0,
            aside,
            limit,
            is_market,
            want,
        ),
        aside == Side::Sell ==> asks1 == asks0 && bids1 == crate::matching::levels_after_match(
            bids0,
            aside,
            limit,
            is_market,
            want,
        ),
        loc1.wf(),
        forall|x: OrderId|
            #![trigger loc1.spec_has(x)]
            loc1.spec_has(x) <==> (loc0.spec_has(x) && !crate::matching::spec_fully_filled(
                crate::matching::match_fills(
                    if aside == Side::Buy {
                        asks0
                    } else {
                        bids0
                    },
                    aside,
                    limit,
                    is_market,
                    want,
                ),
                x,
            )),
        forall|x: OrderId| loc1.spec_has(x) ==> loc1.spec_loc(x) == loc0.spec_loc(x),
    ensures
        book_maps_ok(loc1, bids1, asks1),
        uncrossed(bids1, asks1),
{
    let opp0 = if aside == Side::Buy {
        asks0
    } else {
        bids0
    };
    let opp1 = if aside == Side::Buy {
        asks1
    } else {
        bids1
    };
    let own = if aside == Side::Buy {
        bids0
    } else {
        asks0
    };
    let lside = opposite(aside);
    let fills = crate::matching::match_fills(opp0, aside, limit, is_market, want);
    crate::matching::lemma_match_ids(opp0, aside, limit, is_market, want, lside);
    crate::matching::lemma_match_wf(opp0, aside, limit, is_market, want, lside);
    crate::matching::lemma_match_fill_attrs(opp0, aside, limit, is_market, want, lside);
    // an order resting on the aggressor's own side is never a fill
    assert forall|x: OrderId| side_has_id(own, x) implies !crate::matching::spec_fully_filled(
        fills,
        x,
    ) by {
        if crate::matching::spec_fully_filled(fills, x) {
            let i = choose|i: int|
                0 <= i < fills.len() && fills[i].1.id == x && fills[i].1.remaining_quantity == 0;
            assert(fills[i].2 > 0 && side_has_id(opp0, fills[i].1.id));
            assert(side_has_id(opp0, x));
            assert(loc0.spec_has(x));
            // its recorded side contradicts resting on both sides
            if loc0.spec_loc(x).side == Side::Buy {
                assert(side_has_id(bids0, x) && !side_has_id(asks0, x));
            } else {
                assert(side_has_id(asks0, x) && !side_has_id(bids0, x));
            }
        }
    }
    assert forall|x: OrderId| #[trigger] loc1.spec_has(x) <==> (side_has_id(bids1, x)
        || side_has_id(asks1, x)) by {
        assert(loc0.spec_has(x) <==> (side_has_id(bids0, x) || side_has_id(asks0, x)));
        assert(side_has_id(opp1, x) <==> (side_has_id(opp0, x)
            && !crate::matching::spec_fully_filled(fills, x)));
    }
    assert forall|x: OrderId| loc1.spec_has(x) implies match #[trigger] loc1.spec_loc(x).side {
        Side::Buy => side_has_id(bids1, x) && side_price_of(bids1, x) == loc1.spec_loc(x).price
            && !side_has_id(asks1, x),
        Side::Sell => side_has_id(asks1, x) && side_price_of(asks1, x) == loc1.spec_loc(x).price
            && !side_has_id(bids1, x),
    } by {
        assert(loc0.spec_has(x));
        assert(loc1.spec_loc(x) == loc0.spec_loc(x));
        assert(!crate::matching::spec_fully_filled(fills, x));
        assert(side_has_id(opp1, x) <==> (side_has_id(opp0, x)
            && !crate::matching::spec_fully_filled(fills, x)));
        if side_has_id(opp1, x) {
            assert(side_price_of(opp1, x) == side_price_of(opp0, x));
        }
    }
    // the matched side's best price only moved away from the book centre
    if opp1.len() > 0 && opp0.len() > 0 {
        assert(opp1[0].0 == opp0[0].0 || level_before(lside, opp0[0].0, opp1[0].0));
    }
    if bids1.len() > 0 && asks1.len() > 0 {
        if aside == Side::Buy {
            assert(asks0.len() > 0) by {
                if asks0.len() == 0 {
                    assert(asks1 == asks0);
                }
            }
            assert(bids1[0].0 == bids0[0].0);
            assert(asks0[0].0 <= asks1[0].0);
        } else {
            assert(bids0.len() > 0) by {
                if bids0.len() == 0 {
                    assert(bids1 == bids0);
                }
            }
            assert(asks1[0].0 == asks0[0].0);
            assert(bids1[0].0 <= bids0[0].0);
        }
    }
}

/// Resting an uncrossed residual keeps the whole book consistent.
#[verifier::spinoff_prover]
#[verifier::rlimit(100)]
pub proof fn lemma_rest_inv(
    loc_mid: LocationTable,
    loc2: LocationTable,
    bids_mid: Seq<LevelModel>,
    asks_mid: Seq<LevelModel>,
    bids2: Seq<LevelModel>,
    asks2: Seq<LevelModel>,
    agg: Order,
    aside: Side,
)
    requires
        side_model_wf(bids_mid, Side::Buy),
        side_distinct_ids(bids_mid),
        side_model_wf(asks_mid, Side::Sell),
        side_distinct_ids(asks_mid),
        book_maps_ok(loc_mid, bids_mid, asks_mid),
        uncrossed(bids_mid, asks_mid),
        !loc_mid.spec_has(agg.id),
        resting_ok(agg, agg.price),
        agg.side == aside,
        agg.price > 0,
        aside == Side::Buy ==> bids2 == insert_into_side(bids_mid, Side::Buy, agg) && asks2
            == asks_mid,
        aside == Side::Sell ==> asks2 == insert_into_side(asks_mid, Side::Sell, agg) && bids2
            == bids_mid,
        aside == Side::Buy && asks_mid.len() > 0 ==> agg.price < asks_mid[0].0,
        aside == Side::Sell && bids_mid.len() > 0 ==> agg.price > bids_mid[0].0,
        loc2.wf(),
        forall|x: OrderId|
            #![trigger loc2.spec_has(x)]
            loc2.spec_has(x) <==> (loc_mid.spec_has(x) || x == agg.id),
        forall|x: OrderId|
            loc_mid.spec_has(x) ==> loc2.spec_loc(x) == loc_mid.spec_loc(x),
        loc2.spec_has(agg.id) && loc2.spec_loc(agg.id) == (OrderLocation {
            price: agg.price,
            side: aside,
        }),
    ensures
        book_maps_ok(loc2, bids2, asks2),
        uncrossed(bids2, asks2),
{
    let own_mid = if aside == Side::Buy {
        bids_mid
    } else {
        asks_mid
    };
    let own2 = if aside == Side::Buy {
        bids2
    } else {
        asks2
    };
    // the resting order is new to the book, so new to its own side
    assert(!side_has_id(own_mid, agg.id));
    assert(!side_has_id(bids_mid, agg.id) && !side_has_id(asks_mid, agg.id));
    lemma_insert_side(own_mid, aside, agg);
    assert forall|x: OrderId| #[trigger] loc2.spec_has(x) <==> (side_has_id(bids2, x)
        || side_has_id(asks2, x)) by {
        assert(loc_mid.spec_has(x) <==> (side_has_id(bids_mid, x) || side_has_id(asks_mid, x)));
        assert(side_has_id(own2, x) <==> (side_has_id(own_mid, x) || x == agg.id));
    }
    assert forall|x: OrderId| loc2.spec_has(x) implies match #[trigger] loc2.spec_loc(x).side {
        Side::Buy => side_has_id(bids2, x) && side_price_of(bids2, x) == loc2.spec_loc(x).price
            && !side_has_id(asks2, x),
        Side::Sell => side_has_id(asks2, x) && side_price_of(asks2, x) == loc2.spec_loc(x).price
            && !side_has_id(bids2, x),
    } by {
        assert(side_has_id(own2, x) <==> (side_has_id(own_mid, x) || x == agg.id));
        if x == agg.id {
            assert(loc2.spec_loc(x) == (OrderLocation { price: agg.price, side: aside }));
            assert(side_has_id(own2, agg.id));
            assert(side_price_of(own2, agg.id) == agg.price);
        } else {
            assert(loc_mid.spec_has(x));
            assert(loc2.spec_loc(x) == loc_mid.spec_loc(x));
            if side_has_id(own_mid, x) {
                assert(side_price_of(own2, x) == side_price_of(own_mid, x));
            }
        }
    }
    if bids2.len() > 0 && asks2.len() > 0 {
        if aside == Side::Buy {
            assert(bids2[0].0 == if bids_mid.len() > 0 && level_before(
                Side::Buy,
                bids_mid[0].0,
                agg.price,
            ) {
                bids_mid[0].0
            } else {
                agg.price
            });
            assert(asks_mid.len() > 0);
            assert(agg.price < asks_mid[0].0);
            if bids_mid.len() > 0 && bids_mid[0].0 > agg.price {
                assert(bids_mid[0].0 < asks_mid[0].0);
            }
        } else {
            assert(asks2[0].0 == if asks_mid.len() > 0 && level_before(
                Side::Sell,
                asks_mid[0].0,
                agg.price,
            ) {
                asks_mid[0].0
            } else {
                agg.price
            });
            assert(bids_mid.len() > 0);
            assert(agg.price > bids_mid[0].0);
            if asks_mid.len() > 0 && asks_mid[0].0 < agg.price {
                assert(bids_mid[0].0 < asks_mid[0].0);
            }
        }
    }
}

/// Levels on a sorted side all carry different prices.
pub proof fn lemma_distinct_prices(levels: Seq<PriceLevel>, side: Side)
    requires
        side_model_wf(side_view(levels), side),
    ensures
        forall|i: int, j: int| 0 <= i < j < levels.len() ==> levels[i].price != levels[j].price,
{
    let lv = side_view(levels);
    assert forall|i: int, j: int| 0 <= i < j < levels.len() implies levels[i].price
        != levels[j].price by {
        assert(lv[i] == (levels[i].price, levels[i].queue()));
        assert(lv[j] == (levels[j].price, levels[j].queue()));
        assert(level_before(side, lv[i].0, lv[j].0));
    }
}

/// Whether `a` is a strictly better level price than `b` on this side.
fn level_before_exec(side: Side, a: Price, b: Price) -> (r: bool)
    ensures
        r == level_before(side, a, b),
{
    match side {
        Side::Buy => a > b,
        Side::Sell => a < b,
    }
}

/// The total resting quantity of the level at this price, if the side has one.
pub(crate) fn level_total_at(levels: &Vec<PriceLevel>, price: Price) -> (r: Option<u64>)
    requires
        forall|i: int| 0 <= i < levels@.len() ==> (#[trigger] levels@[i]).wf(),
        forall|i: int, j: int|
            0 <= i < j < levels@.len() ==> levels@[i].price != levels@[j].price,
    ensures
        match r {
            Some(t) => side_has_price(side_view(levels@), price) && t == sum_remaining(
                side_view(levels@)[side_price_idx(side_view(levels@), price)].1,
            ),
            None => !side_has_price(side_view(levels@), price),
        },
{
    let ghost lv = side_view(levels@);
    let n = levels.len();
    let mut i: usize = 0;
    while i < n
        invariant
            n == levels@.len(),
            lv == side_view(levels@),
            i <= n,
            forall|k: int| 0 <= k < levels@.len() ==> (#[trigger] levels@[k]).wf(),
            forall|k: int, j: int|
                0 <= k < j < levels@.len() ==> levels@[k].price != levels@[j].price,
            forall|k: int| 0 <= k < i ==> (#[trigger] lv[k]).0 != price,
        decreases n - i,
    {
        if levels[i].price == price {
            let t = levels[i].total_quantity();
            proof {
                assert(lv[i as int] == (levels@[i as int].price, levels@[i as int].queue()));
                assert(lv[i as int].0 == price);
                assert(side_has_price(lv, price));
                let k = side_price_idx(lv, price);
                assert(0 <= k < lv.len() && lv[k].0 == price);
                assert(k == i as int) by {
                    if k != i as int {
                        assert(lv[k].0 == levels@[k].price);
                        assert(levels@[k].price != levels@[i as int].price || k == i as int);
                    }
                }
                assert(t == sum_remaining(lv[i as int].1));
            }
            return Some(t);
        }
        proof {
            assert(lv[i as int] == (levels@[i as int].price, levels@[i as int].queue()));
        }
        i = i + 1;
    }
    proof {
        if side_has_price(lv, price) {
            let k = side_price_idx(lv, price);
            assert(0 <= k < lv.len() && lv[k].0 == price);
            assert(lv[k].0 != price);
        }
    }
    None
}

/// Insert a resting order into its side at its sorted position, creating the
/// price level when absent.
#[verifier::rlimit(100)]
fn insert_order_into_levels(levels: &mut Vec<PriceLevel>, order: Order)
    requires
        side_ok(old(levels)@, order.side),
        resting_ok(order, order.price),
        order.price > 0,
        !side_has_id(side_view(old(levels)@), order.id),
        side_has_price(side_view(old(levels)@), order.price) ==> sum_remaining(
            side_view(old(levels)@)[side_price_idx(side_view(old(levels)@), order.price)].1,
        ) + order.remaining_quantity <= u64::MAX,
    ensures
        side_ok(final(levels)@, order.side),
        side_view(final(levels)@) == insert_into_side(
            side_view(old(levels)@),
            order.side,
            order,
        ),
{
    let ghost lv0 = side_view(old(levels)@);
    let ghost vec0 = old(levels)@;
    let side = order.side;
    let n = levels.len();
    let mut i: usize = 0;
    proof {
        assert(lv0.skip(0) =~= lv0);
        assert(lv0.take(0) =~= Seq::<LevelModel>::empty());
        assert(insert_into_side(lv0, side, order) =~= lv0.take(0) + insert_into_side(
            lv0.skip(0),
            side,
            order,
        ));
        lemma_insert_side(lv0, side, order);
    }
    while i < n && level_before_exec(side, levels[i].price, order.price)
        invariant
            n == levels@.len(),
            i <= n,
            *levels == *old(levels),
            lv0 == side_view(levels@),
            vec0 == levels@,
            side == order.side,
            forall|k: int| 0 <= k < i ==> level_before(side, (#[trigger] lv0[k]).0, order.price),
            insert_into_side(lv0, side, order) == lv0.take(i as int) + insert_into_side(
                lv0.skip(i as int),
                side,
                order,
            ),
        decreases n - i,
    {
        proof {
            let ii = i as int;
            assert(lv0[ii] == (levels@[ii].price, levels@[ii].queue()));
            assert(lv0.skip(ii)[0] == lv0[ii]);
            assert(lv0.skip(ii).len() > 0);
            assert(level_before(side, lv0.skip(ii)[0].0, order.price));
            assert(lv0.skip(ii).drop_first() =~= lv0.skip(ii + 1));
            assert(insert_into_side(lv0.skip(ii), side, order) == seq![lv0.skip(ii)[0]]
                + insert_into_side(lv0.skip(ii + 1), side, order));
            assert(lv0.take(ii) + (seq![lv0[ii]] + insert_into_side(
                lv0.skip(ii + 1),
                side,
                order,
            )) =~= lv0.take(ii + 1) + insert_into_side(lv0.skip(ii + 1), side, order));
        }
        i = i + 1;
    }
    let ghost ii = i as int;
    proof {
        assert(lv0.skip(ii).len() == lv0.len() - ii);
    }
    if i < n && levels[i].price == order.price {
        // merge into the existing level at this price
        proof {
            assert(lv0[ii] == (levels@[ii].price, levels@[ii].queue()));
            assert(lv0.skip(ii)[0] == lv0[ii]);
            assert(!level_before(side, lv0.skip(ii)[0].0, order.price));
            assert(lv0.skip(ii)[0].0 == order.price);
            assert(insert_into_side(lv0.skip(ii), side, order) == lv0.skip(ii).update(
                0,
                (lv0[ii].0, lv0[ii].1.push(order)),
            ));
            // the level at this price is unique, giving the quantity bound
            assert(side_has_price(lv0, order.price));
            let k = side_price_idx(lv0, order.price);
            assert(0 <= k < lv0.len() && lv0[k].0 == order.price);
            assert(k == ii) by {
                if k < ii {
                    assert(level_before(side, lv0[k].0, lv0[ii].0));
                } else if k > ii {
                    assert(level_before(side, lv0[ii].0, lv0[k].0));
                }
            }
            assert(sum_remaining(lv0[ii].1) + order.remaining_quantity <= u64::MAX);
            assert(!has_id(lv0[ii].1, order.id)) by {
                if has_id(lv0[ii].1, order.id) {
                    assert(side_has_id(lv0, order.id));
                }
            }
        }
        let mut lvl = levels.remove(i);
        lvl.add_order(order);
        levels.insert(i, lvl);
        proof {
            let v1 = levels@;
            assert(v1.len() == vec0.len());
            assert forall|k: int| 0 <= k < v1.len() implies (#[trigger] v1[k]).wf() by {
                if k != ii {
                    assert(v1[k] == vec0[k]);
                }
            }
            assert(side_view(v1) =~= lv0.take(ii) + insert_into_side(lv0.skip(ii), side, order))
                by {
                assert forall|k: int| 0 <= k < v1.len() implies side_view(v1)[k] == (lv0.take(ii)
                    + insert_into_side(lv0.skip(ii), side, order))[k] by {
                    assert(side_view(v1)[k] == (v1[k].price, v1[k].queue()));
                    if k < ii {
                        assert(v1[k] == vec0[k]);
                        assert((lv0.take(ii) + insert_into_side(lv0.skip(ii), side, order))[k]
                            == lv0.take(ii)[k]);
                    } else if k == ii {
                        assert((lv0.take(ii) + insert_into_side(lv0.skip(ii), side, order))[k]
                            == insert_into_side(lv0.skip(ii), side, order)[0]);
                        assert(insert_into_side(lv0.skip(ii), side, order)[0] == (
                            lv0[ii].0,
                            lv0[ii].1.push(order),
                        ));
                    } else {
                        assert(v1[k] == vec0[k]);
                        assert((lv0.take(ii) + insert_into_side(lv0.skip(ii), side, order))[k]
                            == insert_into_side(lv0.skip(ii), side, order)[k - ii]);
                        assert(insert_into_side(lv0.skip(ii), side, order)[k - ii]
                            == lv0.skip(ii)[k - ii]);
                        assert(lv0.skip(ii)[k - ii] == lv0[k]);
                    }
                }
            }
        }
    } else {
        // a new level strictly between the scanned prefix and the rest
        proof {
            if ii < lv0.len() {
                assert(lv0[ii] == (levels@[ii].price, levels@[ii].queue()));
                assert(lv0.skip(ii)[0] == lv0[ii]);
                assert(!level_before(side, lv0.skip(ii)[0].0, order.price));
                assert(lv0.skip(ii)[0].0 != order.price);
                assert(insert_into_side(lv0.skip(ii), side, order) == seq![
                    (order.price, seq![order]),
                ] + lv0.skip(ii));
            } else {
                assert(lv0.skip(ii) =~= Seq::<LevelModel>::empty());
                assert(insert_into_side(lv0.skip(ii), side, order) == seq![
                    (order.price, seq![order]),
                ]);
            }
        }
        let mut lvl = PriceLevel::new(order.price);
        proof {
            lemma_sum_nonneg(Seq::<Order>::empty());
        }
        lvl.add_order(order);
        levels.insert(i, lvl);
        proof {
            let v1 = levels@;
            assert(v1.len() == vec0.len() + 1);
            assert(v1[ii].queue() =~= seq![order]);
            assert forall|k: int| 0 <= k < v1.len() implies (#[trigger] v1[k]).wf() by {
                if k < ii {
                    assert(v1[k] == vec0[k]);
                } else if k > ii {
                    assert(v1[k] == vec0[k - 1]);
                }
            }
            assert(side_view(v1) =~= lv0.take(ii) + insert_into_side(lv0.skip(ii), side, order))
                by {
                assert forall|k: int| 0 <= k < v1.len() implies side_view(v1)[k] == (lv0.take(ii)
                    + insert_into_side(lv0.skip(ii), side, order))[k] by {
                    assert(side_view(v1)[k] == (v1[k].price, v1[k].queue()));
                    if k < ii {
                        assert(v1[k] == vec0[k]);
                        assert((lv0.take(ii) + insert_into_side(lv0.skip(ii), side, order))[k]
                            == lv0.take(ii)[k]);
                    } else if k == ii {
                        assert((lv0.take(ii) + insert_into_side(lv0.skip(ii), side, order))[k]
                            == insert_into_side(lv0.skip(ii), side, order)[0]);
                        assert(v1[ii] == (levels@[ii]));
                        assert(side_view(v1)[k] == (order.price, v1[ii].queue()));
                    } else {
                        assert(v1[k] == vec0[k - 1]);
                        assert((lv0.take(ii) + insert_into_side(lv0.skip(ii), side, order))[k]
                            == insert_into_side(lv0.skip(ii), side, order)[k - ii]);
                        assert(insert_into_side(lv0.skip(ii), side, order)[k - ii]
                            == lv0.skip(ii)[k - ii - 1]);
                        assert(lv0.skip(ii)[k - ii - 1] == lv0[k - 1]);
                    }
                }
            }
        }
    }
    proof {
        // per-level well-formedness plus the model facts give side_ok
        lemma_insert_side(lv0, side, order);
        assert(side_model_wf(side_view(levels@), side));
        assert(side_distinct_ids(side_view(levels@)));
    }
}

/// Aggregate statistics of the book, as one reading.
#[derive(Debug)]
pub struct OrderBookStats {
    pub symbol: String,
    pub total_orders: usize,
    pub bid_levels: usize,
    pub ask_levels: usize,
    pub best_bid: Option<Price>,
    pub best_ask: Option<Price>,
    pub spread: Option<Price>,
    pub last_trade_price: Option<Price>,
    pub total_trades: u64,
    pub total_volume: u64,
}

/// A price-time priority order book for one instrument.
#[derive(Debug)]
pub struct OrderBook {
    /// The instrument this book trades.
    pub symbol: String,
    /// Buy levels, sorted by price, highest (best) first.
    pub bids: Vec<PriceLevel>,
    /// Sell levels, sorted by price, lowest (best) first.
    pub asks: Vec<PriceLevel>,
    /// Where each resting order lives.
    pub locations: LocationTable,
    /// Price of the last trade; zero when no trade has happened yet.
    pub last_trade_price: u64,
    /// Number of trades executed (wrapping on overflow).
    pub total_trades: u64,
    /// Total quantity traded (wrapping on overflow).
    pub total_volume: u64,
}

impl OrderBook {
    /// The mathematical view of the bid side.
    pub open spec fn bids_model(self) -> Seq<LevelModel> {
        side_view(self.bids@)
    }

    /// The mathematical view of the ask side.
    pub open spec fn asks_model(self) -> Seq<LevelModel> {
        side_view(self.asks@)
    }

    /// The model of the side holding `side` orders.
    pub open spec fn side_model(self, side: Side) -> Seq<LevelModel> {
        match side {
            Side::Buy => self.bids_model(),
            Side::Sell => self.asks_model(),
        }
    }

    /// The best (highest) bid price.
    pub open spec fn spec_best_bid(self) -> Option<Price> {
        if self.bids@.len() > 0 {
            Some(self.bids@[0].price)
        } else {
            None
        }
    }

    /// The best (lowest) ask price.
    pub open spec fn spec_best_ask(self) -> Option<Price> {
        if self.asks@.len() > 0 {
            Some(self.asks@[0].price)
        } else {
            None
        }
    }

    /// The book invariant: both sides are well formed and sorted best first;
    /// the location table lists exactly the resting orders, each pointing at
    /// the level that holds it; no order rests on both sides; and the book is
    /// never left crossed.
    pub open spec fn inv(self) -> bool {
        &&& side_ok(self.bids@, Side::Buy)
        &&& side_ok(self.asks@, Side::Sell)
        &&& book_maps_ok(self.locations, self.bids_model(), self.asks_model())
        &&& uncrossed(self.bids_model(), self.asks_model())
    }

    /// An empty book for one instrument.
    pub fn new(symbol: String) -> (r: OrderBook)
        ensures
            r.inv(),
            r.symbol == symbol,
            r.bids@.len() == 0,
            r.asks@.len() == 0,
            r.locations.entries@.len() == 0,
            r.last_trade_price == 0,
            r.total_trades == 0,
            r.total_volume == 0,
    {
        let book = OrderBook {
            symbol,
            bids: Vec::new(),
            asks: Vec::new(),
            locations: LocationTable::new(),
            last_trade_price: 0,
            total_trades: 0,
            total_volume: 0,
        };
        proof {
            assert forall|x: OrderId| !book.locations.spec_has(x) by {
                if book.locations.spec_has(x) {
                    let i = choose|i: int|
                        0 <= i < book.locations.entries@.len() && book.locations.entries@[i].0
                            == x;
                }
            }
            assert forall|x: OrderId| !side_has_id(book.bids_model(), x) && !side_has_id(
                book.asks_model(),
                x,
            ) by {}
        }
        book
    }

    /// The current best bid price, if any.
    pub fn best_bid(&self) -> (r: Option<Price>)
        ensures
            r == self.spec_best_bid(),
    {
        if self.bids.len() > 0 {
            Some(self.bids[0].price)
        } else {
            None
        }
    }

    /// The current best ask price, if any.
    pub fn best_ask(&self) -> (r: Option<Price>)
        ensures
            r == self.spec_best_ask(),
    {
        if self.asks.len() > 0 {
            Some(self.asks[0].price)
        } else {
            None
        }
    }

    /// The bid-ask spread, when both sides have liquidity.
    pub fn spread(&self) -> (r: Option<Price>)
        ensures
            r == match (self.spec_best_ask(), self.spec_best_bid()) {
                (Some(ask), Some(bid)) => if ask > bid {
                    Some((ask - bid) as Price)
                } else {
                    Option::<Price>::None
                },
                _ => Option::<Price>::None,
            },
    {
        match (self.best_ask(), self.best_bid()) {
            (Some(ask), Some(bid)) => {
                if ask > bid {
                    Some(ask - bid)
                } else {
                    None
                }
            },
            _ => None,
        }
    }

    /// The price of the last trade, if any trade has happened.
    pub fn last_trade_price(&self) -> (r: Option<Price>)
        ensures
            r == if self.last_trade_price == 0 {
                Option::<Price>::None
            } else {
                Some(self.last_trade_price)
            },
    {
        if self.last_trade_price == 0 {
            None
        } else {
            Some(self.last_trade_price)
        }
    }

    /// The number of orders resting in the book.
    pub fn total_orders(&self) -> (r: usize)
        ensures
            r == self.locations.entries@.len(),
    {
        self.locations.len()
    }

    /// A consistent snapshot: both sides' depth, best first, with the last
    /// trade price and the capture time.
    pub fn snapshot(&self) -> (r: BookSnapshot)
        ensures
            r.symbol == self.symbol,
            r.bids@.len() == self.bids@.len(),
            forall|i: int|
                0 <= i < self.bids@.len() ==> #[trigger] r.bids@[i] == (PriceLevelInfo {
                    price: self.bids@[i].price,
                    quantity: self.bids@[i].spec_total(),
                    order_count: self.bids@[i].spec_count() as u32,
                }),
            r.asks@.len() == self.asks@.len(),
            forall|i: int|
                0 <= i < self.asks@.len() ==> #[trigger] r.asks@[i] == (PriceLevelInfo {
                    price: self.asks@[i].price,
                    quantity: self.asks@[i].spec_total(),
                    order_count: self.asks@[i].spec_count() as u32,
                }),
            r.last_trade_price == if self.last_trade_price == 0 {
                Option::<Price>::None
            } else {
                Some(self.last_trade_price)
            },
    {
        let mut bids: Vec<PriceLevelInfo> = Vec::new();
        let mut i: usize = 0;
        let nb = self.bids.len();
        while i < nb
            invariant
                nb == self.bids@.len(),
                i <= nb,
                bids@.len() == i,
                forall|k: int|
                    0 <= k < i ==> #[trigger] bids@[k] == (PriceLevelInfo {
                        price: self.bids@[k].price,
                        quantity: self.bids@[k].spec_total(),
                        order_count: self.bids@[k].spec_count() as u32,
                    }),
            decreases nb - i,
        {
            let (quantity, order_count) = self.bids[i].get_depth_info();
            bids.push(PriceLevelInfo { price: self.bids[i].price, quantity, order_count });
            i = i + 1;
        }
        let mut asks: Vec<PriceLevelInfo> = Vec::new();
        let mut j: usize = 0;
        let na = self.asks.len();
        while j < na
            invariant
                na == self.asks@.len(),
                j <= na,
                asks@.len() == j,
                forall|k: int|
                    0 <= k < j ==> #[trigger] asks@[k] == (PriceLevelInfo {
                        price: self.asks@[k].price,
                        quantity: self.asks@[k].spec_total(),
                        order_count: self.asks@[k].spec_count() as u32,
                    }),
            decreases na - j,
        {
            let (quantity, order_count) = self.asks[j].get_depth_info();
            asks.push(PriceLevelInfo { price: self.asks[j].price, quantity, order_count });
            j = j + 1;
        }
        BookSnapshot {
            symbol: self.symbol.clone(),
            timestamp: wall_clock_nanos(),
            bids,
            asks,
            last_trade_price: self.last_trade_price(),
        }
    }

    /// All aggregate statistics, as one reading.
    pub fn get_stats(&self) -> (r: OrderBookStats)
        ensures
            r.symbol == self.symbol,
            r.total_orders == self.locations.entries@.len(),
            r.bid_levels == self.bids@.len(),
            r.ask_levels == self.asks@.len(),
            r.best_bid == self.spec_best_bid(),
            r.best_ask == self.spec_best_ask(),
            r.last_trade_price == if self.last_trade_price == 0 {
                Option::<Price>::None
            } else {
                Some(self.last_trade_price)
            },
            r.total_trades == self.total_trades,
            r.total_volume == self.total_volume,
    {
        OrderBookStats {
            symbol: self.symbol.clone(),
            total_orders: self.total_orders(),
            bid_levels: self.bids.len(),
            ask_levels: self.asks.len(),
            best_bid: self.best_bid(),
            best_ask: self.best_ask(),
            spread: self.spread(),
            last_trade_price: self.last_trade_price(),
            total_trades: self.total_trades,
            total_volume: self.total_volume,
        }
    }
}


/// Why a limit order submission is rejected, if it is.
pub open spec fn limit_reject(book: OrderBook, order: Order) -> Option<OrderBookError> {
    if order.symbol@ != book.symbol@ {
        Some(OrderBookError::InvalidSymbol)
    } else if order.order_type != OrderType::Limit {
        Some(OrderBookError::InvalidOrderType)
    } else if order.price == 0 {
        Some(OrderBookError::InvalidPrice)
    } else if order.original_quantity == 0 {
        Some(OrderBookError::InvalidQuantity)
    } else if !order.spec_is_fresh() {
        Some(OrderBookError::InvalidOrderState)
    } else if book.locations.spec_has(order.id) {
        Some(OrderBookError::DuplicateOrder)
    } else if side_has_price(book.side_model(order.side), order.price) && sum_remaining(
        book.side_model(order.side)[side_price_idx(book.side_model(order.side), order.price)].1,
    ) + order.remaining_quantity > u64::MAX {
        Some(OrderBookError::OrderTooLarge)
    } else {
        None
    }
}

/// The whole effect of an accepted limit order: the opposite side is matched
/// in price-time priority, one trade event per fill, and any residual rests
/// on its own side with an added event and a location entry; the statistics
/// absorb the fills.
pub open spec fn add_limit_ok(
    book0: OrderBook,
    book1: OrderBook,
    order: Order,
    events: Seq<MarketEvent>,
) -> bool {
    let aside = order.side;
    let opp0 = book0.side_model(opposite(aside));
    let fills = match_fills(opp0, aside, order.price, false, order.remaining_quantity);
    let total = fills_total(fills);
    let agg = matched_aggressor(order, opp0, false);
    let rested = agg.remaining_quantity > 0;
    &&& book1.symbol == book0.symbol
    &&& book1.side_model(opposite(aside)) == levels_after_match(
        opp0,
        aside,
        order.price,
        false,
        order.remaining_quantity,
    )
    &&& book1.side_model(aside) == if rested {
        insert_into_side(book0.side_model(aside), aside, agg)
    } else {
        book0.side_model(aside)
    }
    &&& events.len() == fills.len() + if rested {
        1int
    } else {
        0
    }
    &&& forall|i: int|
        0 <= i < fills.len() ==> ((#[trigger] events[i]) matches MarketEvent::Trade { trade }
            && trade_matches_fill(trade, order, fills[i]))
    &&& (rested ==> events[events.len() - 1] == (MarketEvent::OrderAdded { order: agg }))
    &&& forall|x: OrderId|
        #![trigger book1.locations.spec_has(x)]
        book1.locations.spec_has(x) <==> ((book0.locations.spec_has(x) && !spec_fully_filled(
            fills,
            x,
        )) || (rested && x == order.id))
    &&& forall|x: OrderId|
        book0.locations.spec_has(x) && book1.locations.spec_has(x) && x != order.id
            ==> book1.locations.spec_loc(x) == book0.locations.spec_loc(x)
    &&& (rested ==> book1.locations.spec_loc(order.id) == (OrderLocation {
        price: order.price,
        side: aside,
    }))
    &&& book1.last_trade_price == if fills.len() > 0 {
        fills[fills.len() - 1].0
    } else {
        book0.last_trade_price
    }
    &&& book1.total_trades == vstd::wrapping::u64_specs::wrapping_add(
        book0.total_trades,
        fills.len() as u64,
    )
    &&& book1.total_volume == vstd::wrapping::u64_specs::wrapping_add(
        book0.total_volume,
        total as u64,
    )
}

/// The full contract of `add_limit_order`.
pub open spec fn add_limit_post(
    book0: OrderBook,
    book1: OrderBook,
    order: Order,
    r: Result<Vec<MarketEvent>, OrderBookError>,
) -> bool {
    match limit_reject(book0, order) {
        Some(e) => r matches Err(e2) && e2 == e && book1 == book0,
        None => r matches Ok(events) && add_limit_ok(book0, book1, order, events@),
    }
}

impl OrderBook {
    /// Add a limit order: match it against the opposite side in price-time
    /// priority; any residual quantity rests in the book.
    #[verifier::rlimit(100)]
    pub fn add_limit_order(&mut self, order: Order) -> (r: Result<
        Vec<MarketEvent>,
        OrderBookError,
    >)
        requires
            old(self).inv(),
        ensures
            final(self).inv(),
            add_limit_post(*old(self), *final(self), order, r),
    {
        let ghost book0 = *old(self);
        if !order.symbol.eq(&self.symbol) {
            return Err(OrderBookError::InvalidSymbol);
        }
        if !(order.order_type == OrderType::Limit) {
            return Err(OrderBookError::InvalidOrderType);
        }
        if order.price == 0 {
            return Err(OrderBookError::InvalidPrice);
        }
        if order.original_quantity == 0 {
            return Err(OrderBookError::InvalidQuantity);
        }
        if !(order.status == OrderStatus::New) || order.filled_quantity != 0
            || order.remaining_quantity != order.original_quantity {
            return Err(OrderBookError::InvalidOrderState);
        }
        if self.locations.contains(order.id) {
            return Err(OrderBookError::DuplicateOrder);
        }
        proof {
            lemma_distinct_prices(self.bids@, Side::Buy);
            lemma_distinct_prices(self.asks@, Side::Sell);
        }
        let own_total = match order.side {
            Side::Buy => level_total_at(&self.bids, order.price),
            Side::Sell => level_total_at(&self.asks, order.price),
        };
        if let Some(t) = own_total {
            if order.remaining_quantity > u64::MAX - t {
                return Err(OrderBookError::OrderTooLarge);
            }
        }
        proof {
            assert(limit_reject(book0, order) is None);
        }
        let ghost aside = order.side;
        let ghost opp0 = book0.side_model(opposite(aside));
        let ghost own0 = book0.side_model(aside);
        let want = order.remaining_quantity;
        let mut agg = order;
        let ghost ord0 = agg;
        let trades = match agg.side {
            Side::Buy => MatchingEngine::match_limit_order(
                &mut agg,
                &mut self.asks,
                &mut self.locations,
            ),
            Side::Sell => MatchingEngine::match_limit_order(
                &mut agg,
                &mut self.bids,
                &mut self.locations,
            ),
        };
        let ghost fills = match_fills(opp0, aside, ord0.price, false, want);
        let ghost loc_mid = self.locations;
        proof {
            lemma_mid_inv(
                book0.locations,
                self.locations,
                book0.bids_model(),
                book0.asks_model(),
                self.bids_model(),
                self.asks_model(),
                aside,
                ord0.price,
                false,
                want,
            );
            lemma_match_wf(opp0, aside, ord0.price, false, want, opposite(aside));
            lemma_match_fill_attrs(opp0, aside, ord0.price, false, want, opposite(aside));
            lemma_fills_total_nonneg(fills);
            assert(agg == matched_aggressor(ord0, opp0, false));
            assert(fills_total(fills) == want - agg.remaining_quantity);
        }
        let n = trades.len();
        if n > 0 {
            self.total_trades = self.total_trades.wrapping_add(n as u64);
            let vol = want - agg.remaining_quantity;
            self.total_volume = self.total_volume.wrapping_add(vol);
            self.last_trade_price = trades[n - 1].price;
            proof {
                assert(trade_matches_fill(trades@[n - 1], ord0, fills[n as int - 1]));
                assert(fills[n as int - 1].0 > 0);
            }
        }
        let mut events: Vec<MarketEvent> = Vec::new();
        let mut i: usize = 0;
        while i < n
            invariant
                n == trades@.len(),
                i <= n,
                events@.len() == i,
                forall|k: int|
                    0 <= k < i ==> #[trigger] events@[k] == (MarketEvent::Trade {
                        trade: trades@[k],
                    }),
            decreases n - i,
        {
            events.push(MarketEvent::Trade { trade: trades[i].clone() });
            i = i + 1;
        }
        if agg.remaining_quantity > 0 {
            let rested_copy = agg.clone();
            let id = agg.id;
            let price = agg.price;
            let side = agg.side;
            proof {
                // the residual is a valid resting order, new to its side
                assert(resting_ok(agg, agg.price));
                assert(!self.locations.spec_has(id));
                assert(!side_has_id(book0.side_model(aside), id));
                if side_has_price(own0, price) {
                    assert(sum_remaining(own0[side_price_idx(own0, price)].1)
                        + agg.remaining_quantity <= u64::MAX);
                }
                // quantity left means the next opposing price does not permit
                if aside == Side::Buy {
                    if self.asks@.len() > 0 {
                        assert(!spec_price_permits(aside, price, self.asks_model()[0].0));
                    }
                } else {
                    if self.bids@.len() > 0 {
                        assert(!spec_price_permits(aside, price, self.bids_model()[0].0));
                    }
                }
            }
            match side {
                Side::Buy => insert_order_into_levels(&mut self.bids, agg),
                Side::Sell => insert_order_into_levels(&mut self.asks, agg),
            }
            self.locations.register(id, OrderLocation { price, side });
            events.push(MarketEvent::OrderAdded { order: rested_copy });
            proof {
                lemma_rest_inv(
                    loc_mid,
                    self.locations,
                    if aside == Side::Buy {
                        book0.bids_model()
                    } else {
                        levels_after_match(book0.bids_model(), aside, ord0.price, false, want)
                    },
                    if aside == Side::Buy {
                        levels_after_match(book0.asks_model(), aside, ord0.price, false, want)
                    } else {
                        book0.asks_model()
                    },
                    self.bids_model(),
                    self.asks_model(),
                    rested_copy,
                    aside,
                );
            }
        }
        Ok(events)
    }
}

/// What removing one resting order does to a well-formed side.
#[verifier::spinoff_prover]
#[verifier::rlimit(100)]
pub proof fn lemma_remove_side(levels: Seq<LevelModel>, side: Side, id: OrderId)
    requires
        side_model_wf(levels, side),
        side_distinct_ids(levels),
        side_has_id(levels, id),
    ensures
        ({
            let after = remove_from_side(levels, id);
            &&& side_model_wf(after, side)
            &&& side_distinct_ids(after)
            &&& forall|x: OrderId|
                side_has_id(after, x) <==> (side_has_id(levels, x) && x != id)
            &&& forall|x: OrderId|
                side_has_id(after, x) ==> side_price_of(after, x) == side_price_of(levels, x)
            &&& after.len() <= levels.len()
            &&& (after.len() > 0 ==> (after[0].0 == levels[0].0 || level_before(
                side,
                levels[0].0,
                after[0].0,
            )))
        }),
{
    let i = side_level_idx(levels, id);
    assert(0 <= i < levels.len() && has_id(levels[i].1, id));
    let q = levels[i].1;
    let a = idx_of(q, id);
    assert(0 <= a < q.len() && q[a].id == id);
    let after = remove_from_side(levels, id);
    assert(queue_wf(q, levels[i].0));
    if q.len() == 1 {
        assert(a == 0);
        assert(after == levels.remove(i));
        assert forall|k: int| 0 <= k < after.len() implies queue_wf(#[trigger] after[k].1, after[k].0)
            && after[k].1.len() > 0 && after[k].0 > 0 by {
            if k < i {
                assert(after[k] == levels[k]);
            } else {
                assert(after[k] == levels[k + 1]);
            }
        }
        assert forall|k: int, j: int| 0 <= k < j < after.len() implies level_before(
            side,
            after[k].0,
            after[j].0,
        ) by {
            let k0 = if k < i { k } else { k + 1 };
            let j0 = if j < i { j } else { j + 1 };
            assert(after[k] == levels[k0]);
            assert(after[j] == levels[j0]);
        }
        assert forall|k: int, j: int|
            0 <= k < after.len() && 0 <= j < after[k].1.len() implies (#[trigger] after[k].1[j]).side
                == side by {
            let k0 = if k < i { k } else { k + 1 };
            assert(after[k] == levels[k0]);
            assert(levels[k0].1[j].side == side);
        }
        assert forall|k: int, m: int, x: int, y: int|
            0 <= k < after.len() && 0 <= m < after.len() && 0 <= x < after[k].1.len() && 0 <= y
                < after[m].1.len() && (k != m || x != y) implies (#[trigger] after[k].1[x]).id != (
        #[trigger] after[m].1[y]).id by {
            let k0 = if k < i { k } else { k + 1 };
            let m0 = if m < i { m } else { m + 1 };
            assert(after[k] == levels[k0]);
            assert(after[m] == levels[m0]);
        }
        assert forall|x: OrderId| side_has_id(after, x) implies (side_has_id(levels, x) && x
            != id) by {
            let k = choose|k: int| 0 <= k < after.len() && has_id(#[trigger] after[k].1, x);
            let k0 = if k < i { k } else { k + 1 };
            assert(after[k] == levels[k0]);
            assert(side_has_id(levels, x));
            if x == id {
                let b = choose|b: int| 0 <= b < levels[k0].1.len() && levels[k0].1[b].id == x;
                assert(k0 != i);
                assert(levels[k0].1[b].id != levels[i].1[a].id);
            }
        }
        assert forall|x: OrderId| (side_has_id(levels, x) && x != id) implies side_has_id(
            after,
            x,
        ) by {
            let k0 = choose|k: int| 0 <= k < levels.len() && has_id(#[trigger] levels[k].1, x);
            if k0 == i {
                let b = choose|b: int| 0 <= b < q.len() && q[b].id == x;
                assert(b == a);
                assert(false);
            } else if k0 < i {
                assert(after[k0] == levels[k0]);
            } else {
                assert(after[k0 - 1] == levels[k0]);
            }
        }
        assert forall|x: OrderId| side_has_id(after, x) implies #[trigger] side_price_of(
            after,
            x,
        ) == side_price_of(levels, x) by {
            let k = choose|k: int| 0 <= k < after.len() && has_id(#[trigger] after[k].1, x);
            let k0 = if k < i { k } else { k + 1 };
            assert(after[k] == levels[k0]);
            lemma_side_price_unique(after, k, x);
            lemma_side_price_unique(levels, k0, x);
        }
        if after.len() > 0 {
            if i == 0 {
                assert(after[0] == levels[1]);
            } else {
                assert(after[0] == levels[0]);
            }
        }
    } else {
        let q2 = q.remove(a);
        assert(after == levels.update(i, (levels[i].0, q2)));
        assert(after[i] == (levels[i].0, q2));
        assert forall|b: int| 0 <= b < q2.len() implies resting_ok(
            #[trigger] q2[b],
            levels[i].0,
        ) by {
            if b < a {
                assert(q2[b] == q[b]);
            } else {
                assert(q2[b] == q[b + 1]);
            }
        }
        assert forall|x: int, y: int| 0 <= x < y < q2.len() implies q2[x].id != q2[y].id by {
            let x0 = if x < a { x } else { x + 1 };
            let y0 = if y < a { y } else { y + 1 };
            assert(q2[x] == q[x0]);
            assert(q2[y] == q[y0]);
        }
        assert forall|k: int| 0 <= k < after.len() implies queue_wf(#[trigger] after[k].1, after[k].0)
            && after[k].1.len() > 0 && after[k].0 > 0 by {
            if k != i {
                assert(after[k] == levels[k]);
            }
        }
        assert forall|k: int, j: int| 0 <= k < j < after.len() implies level_before(
            side,
            after[k].0,
            after[j].0,
        ) by {
            assert(after[k].0 == levels[k].0);
            assert(after[j].0 == levels[j].0);
        }
        assert forall|k: int, j: int|
            0 <= k < after.len() && 0 <= j < after[k].1.len() implies (#[trigger] after[k].1[j]).side
                == side by {
            if k != i {
                assert(after[k] == levels[k]);
                assert(levels[k].1[j].side == side);
            } else {
                let j0 = if j < a { j } else { j + 1 };
                assert(q2[j] == q[j0]);
                assert(levels[i].1[j0].side == side);
            }
        }
        assert forall|k: int, m: int, x: int, y: int|
            0 <= k < after.len() && 0 <= m < after.len() && 0 <= x < after[k].1.len() && 0 <= y
                < after[m].1.len() && (k != m || x != y) implies (#[trigger] after[k].1[x]).id != (
        #[trigger] after[m].1[y]).id by {
            let x0 = if k == i { if x < a { x } else { x + 1 } } else { x };
            let y0 = if m == i { if y < a { y } else { y + 1 } } else { y };
            assert(after[k].1[x] == levels[k].1[x0]);
            assert(after[m].1[y] == levels[m].1[y0]);
        }
        assert forall|x: OrderId| side_has_id(after, x) implies (side_has_id(levels, x) && x
            != id) by {
            let k = choose|k: int| 0 <= k < after.len() && has_id(#[trigger] after[k].1, x);
            let b = choose|b: int| 0 <= b < after[k].1.len() && after[k].1[b].id == x;
            let b0 = if k == i { if b < a { b } else { b + 1 } } else { b };
            assert(after[k].1[b] == levels[k].1[b0]);
            assert(side_has_id(levels, x)) by {
                assert(has_id(levels[k].1, x)) by {
                    assert(levels[k].1[b0].id == x);
                }
            }
            if x == id {
                if k == i {
                    assert(b0 != a);
                    assert(levels[i].1[b0].id != levels[i].1[a].id);
                } else {
                    assert(levels[k].1[b0].id != levels[i].1[a].id);
                }
            }
        }
        assert forall|x: OrderId| (side_has_id(levels, x) && x != id) implies side_has_id(
            after,
            x,
        ) by {
            let k0 = choose|k: int| 0 <= k < levels.len() && has_id(#[trigger] levels[k].1, x);
            let b0 = choose|b: int| 0 <= b < levels[k0].1.len() && levels[k0].1[b].id == x;
            if k0 == i {
                assert(b0 != a);
                let b1 = if b0 < a { b0 } else { b0 - 1 };
                assert(q2[b1] == q[b0]);
                assert(has_id(after[i].1, x)) by {
                    assert(after[i].1[b1].id == x);
                }
            } else {
                assert(after[k0] == levels[k0]);
            }
        }
        assert forall|x: OrderId| side_has_id(after, x) implies #[trigger] side_price_of(
            after,
            x,
        ) == side_price_of(levels, x) by {
            let k = choose|k: int| 0 <= k < after.len() && has_id(#[trigger] after[k].1, x);
            lemma_side_price_unique(after, k, x);
            if k == i {
                let b = choose|b: int| 0 <= b < after[i].1.len() && after[i].1[b].id == x;
                let b0 = if b < a { b } else { b + 1 };
                assert(levels[i].1[b0].id == x);
                assert(has_id(levels[i].1, x));
                lemma_side_price_unique(levels, i, x);
            } else {
                assert(after[k] == levels[k]);
                lemma_side_price_unique(levels, k, x);
            }
        }
        assert(after[0].0 == levels[0].0);
    }
}

/// Index of the level with this price on a side with distinct prices.
pub(crate) fn find_level_index(levels: &Vec<PriceLevel>, price: Price) -> (r: Option<usize>)
    requires
        forall|i: int, j: int|
            0 <= i < j < levels@.len() ==> levels@[i].price != levels@[j].price,
    ensures
        match r {
            Some(i) => i < levels@.len() && levels@[i as int].price == price,
            None => !side_has_price(side_view(levels@), price),
        },
{
    let n = levels.len();
    let mut i: usize = 0;
    while i < n
        invariant
            n == levels@.len(),
            i <= n,
            forall|k: int| 0 <= k < i ==> (#[trigger] levels@[k]).price != price,
        decreases n - i,
    {
        if levels[i].price == price {
            return Some(i);
        }
        i = i + 1;
    }
    proof {
        let lv = side_view(levels@);
        if side_has_price(lv, price) {
            let k = choose|k: int| 0 <= k < lv.len() && (#[trigger] lv[k]).0 == price;
            assert(lv[k] == (levels@[k].price, levels@[k].queue()));
            assert(levels@[k].price != price);
        }
    }
    None
}

/// Why a cancellation is rejected, and what an accepted one does.
pub open spec fn cancel_post(
    book0: OrderBook,
    book1: OrderBook,
    order_id: OrderId,
    r: Result<MarketEvent, OrderBookError>,
) -> bool {
    if !book0.locations.spec_has(order_id) {
        &&& r matches Err(e) && e == OrderBookError::OrderNotFound
        &&& book1 == book0
    } else {
        let loc = book0.locations.spec_loc(order_id);
        let own0 = book0.side_model(loc.side);
        let q = own0[side_level_idx(own0, order_id)].1;
        let removed = q[idx_of(q, order_id)];
        &&& r matches Ok(ev) && ev == (MarketEvent::OrderCancelled {
            order_id: order_id,
            remaining_quantity: removed.remaining_quantity,
        })
        &&& book1.side_model(loc.side) == remove_from_side(own0, order_id)
        &&& book1.side_model(opposite(loc.side)) == book0.side_model(opposite(loc.side))
        &&& forall|x: OrderId|
            #![trigger book1.locations.spec_has(x)]
            book1.locations.spec_has(x) <==> (book0.locations.spec_has(x) && x != order_id)
        &&& forall|x: OrderId|
            book1.locations.spec_has(x) ==> book1.locations.spec_loc(x)
                == book0.locations.spec_loc(x)
        &&& book1.symbol == book0.symbol
        &&& book1.last_trade_price == book0.last_trade_price
        &&& book1.total_trades == book0.total_trades
        &&& book1.total_volume == book0.total_volume
    }
}

impl OrderBook {
    /// Cancel a resting order: remove it from its level, drop the level if
    /// it empties, and forget its location.
    #[verifier::rlimit(100)]
    pub fn cancel_order(&mut self, order_id: &OrderId) -> (r: Result<
        MarketEvent,
        OrderBookError,
    >)
        requires
            old(self).inv(),
        ensures
            final(self).inv(),
            cancel_post(*old(self), *final(self), *order_id, r),
    {
        let ghost book0 = *old(self);
        let loc = match self.locations.locate(*order_id) {
            Some(l) => l,
            None => {
                return Err(OrderBookError::OrderNotFound);
            },
        };
        let ghost own0 = book0.side_model(loc.side);
        proof {
            lemma_distinct_prices(self.bids@, Side::Buy);
            lemma_distinct_prices(self.asks@, Side::Sell);
            // the location points at a level that holds the order
            assert(side_has_id(own0, *order_id));
            assert(side_price_of(own0, *order_id) == loc.price);
            let li = side_level_idx(own0, *order_id);
            assert(0 <= li < own0.len() && has_id(own0[li].1, *order_id));
            lemma_side_price_unique(own0, li, *order_id);
            assert(own0[li].0 == loc.price);
            assert(side_has_price(own0, loc.price));
        }
        let found = match loc.side {
            Side::Buy => find_level_index(&self.bids, loc.price),
            Side::Sell => find_level_index(&self.asks, loc.price),
        };
        let idx = match found {
            Some(i) => i,
            None => {
                proof {
                    assert(false);
                }
                return Err(OrderBookError::OrderNotFound);
            },
        };
        let ghost li = side_level_idx(own0, *order_id);
        proof {
            // sorted distinct prices make the level index unique
            assert(li == idx as int) by {
                if loc.side == Side::Buy {
                    assert(own0[idx as int].0 == book0.bids@[idx as int].price);
                    assert(own0[li].0 == loc.price && own0[idx as int].0 == loc.price);
                    if li != idx as int {
                        assert(level_before(Side::Buy, own0[li].0, own0[idx as int].0)
                            || level_before(Side::Buy, own0[idx as int].0, own0[li].0));
                    }
                } else {
                    assert(own0[idx as int].0 == book0.asks@[idx as int].price);
                    assert(own0[li].0 == loc.price && own0[idx as int].0 == loc.price);
                    if li != idx as int {
                        assert(level_before(Side::Sell, own0[li].0, own0[idx as int].0)
                            || level_before(Side::Sell, own0[idx as int].0, own0[li].0));
                    }
                }
            }
        }
        let removed: Order;
        let ghost q = own0[li].1;
        match loc.side {
            Side::Buy => {
                let ghost vec0 = self.bids@;
                let mut lvl = self.bids.remove(idx);
                let got = lvl.remove_order(order_id);
                match got {
                    Some(o) => {
                        removed = o;
                    },
                    None => {
                        proof {
                            assert(false);
                        }
                        return Err(OrderBookError::OrderNotFound);
                    },
                }
                if !lvl.is_empty() {
                    self.bids.insert(idx, lvl);
                    proof {
                        assert(q.remove(idx_of(q, *order_id)).len() > 0);
                        assert(q.len() > 1);
                        assert(side_view(self.bids@) =~= remove_from_side(own0, *order_id)) by {
                            assert forall|k: int| 0 <= k < self.bids@.len() implies side_view(
                                self.bids@,
                            )[k] == remove_from_side(own0, *order_id)[k] by {
                                if k != li {
                                    assert(self.bids@[k] == vec0[k]);
                                }
                            }
                        }
                    }
                } else {
                    proof {
                        assert(lvl.queue().len() == 0);
                        assert(q.remove(idx_of(q, *order_id)).len() == 0);
                        assert(q.len() == 1);
                        assert(side_view(self.bids@) =~= remove_from_side(own0, *order_id)) by {
                            assert forall|k: int| 0 <= k < self.bids@.len() implies side_view(
                                self.bids@,
                            )[k] == remove_from_side(own0, *order_id)[k] by {
                                if k < li {
                                    assert(self.bids@[k] == vec0[k]);
                                } else {
                                    assert(self.bids@[k] == vec0[k + 1]);
                                }
                            }
                        }
                    }
                }
            },
            Side::Sell => {
                let ghost vec0 = self.asks@;
                let mut lvl = self.asks.remove(idx);
                let got = lvl.remove_order(order_id);
                match got {
                    Some(o) => {
                        removed = o;
                    },
                    None => {
                        proof {
                            assert(false);
                        }
                        return Err(OrderBookError::OrderNotFound);
                    },
                }
                if !lvl.is_empty() {
                    self.asks.insert(idx, lvl);
                    proof {
                        assert(q.remove(idx_of(q, *order_id)).len() > 0);
                        assert(q.len() > 1);
                        assert(side_view(self.asks@) =~= remove_from_side(own0, *order_id)) by {
                            assert forall|k: int| 0 <= k < self.asks@.len() implies side_view(
                                self.asks@,
                            )[k] == remove_from_side(own0, *order_id)[k] by {
                                if k != li {
                                    assert(self.asks@[k] == vec0[k]);
                                }
                            }
                        }
                    }
                } else {
                    proof {
                        assert(lvl.queue().len() == 0);
                        assert(q.remove(idx_of(q, *order_id)).len() == 0);
                        assert(q.len() == 1);
                        assert(side_view(self.asks@) =~= remove_from_side(own0, *order_id)) by {
                            assert forall|k: int| 0 <= k < self.asks@.len() implies side_view(
                                self.asks@,
                            )[k] == remove_from_side(own0, *order_id)[k] by {
                                if k < li {
                                    assert(self.asks@[k] == vec0[k]);
                                } else {
                                    assert(self.asks@[k] == vec0[k + 1]);
                                }
                            }
                        }
                    }
                }
            },
        }
        self.locations.unregister(*order_id);
        proof {
            lemma_remove_side(own0, loc.side, *order_id);
            // per-level well-formedness of the stored vectors
            if loc.side == Side::Buy {
                assert forall|k: int| 0 <= k < self.bids@.len() implies (
                #[trigger] self.bids@[k]).wf() by {
                    assert(side_model_wf(side_view(self.bids@), Side::Buy));
                }
            }
            // the invariant's mapping clauses
            let book1 = *self;
            assert forall|x: OrderId| #[trigger] book1.locations.spec_has(x) <==> (side_has_id(
                book1.bids_model(),
                x,
            ) || side_has_id(book1.asks_model(), x)) by {
                assert(book0.locations.spec_has(x) <==> (side_has_id(book0.bids_model(), x)
                    || side_has_id(book0.asks_model(), x)));
                if x == *order_id {
                    assert(!book1.locations.spec_has(x));
                    assert(!side_has_id(remove_from_side(own0, *order_id), x));
                    if loc.side == Side::Buy {
                        assert(!side_has_id(book0.asks_model(), x));
                    } else {
                        assert(!side_has_id(book0.bids_model(), x));
                    }
                }
            }
            assert forall|x: OrderId| book1.locations.spec_has(x) implies match #[trigger] book1
                .locations.spec_loc(x).side {
                Side::Buy => side_has_id(book1.bids_model(), x) && side_price_of(
                    book1.bids_model(),
                    x,
                ) == book1.locations.spec_loc(x).price && !side_has_id(book1.asks_model(), x),
                Side::Sell => side_has_id(book1.asks_model(), x) && side_price_of(
                    book1.asks_model(),
                    x,
                ) == book1.locations.spec_loc(x).price && !side_has_id(book1.bids_model(), x),
            } by {
                assert(book0.locations.spec_has(x));
                assert(book1.locations.spec_loc(x) == book0.locations.spec_loc(x));
                if side_has_id(remove_from_side(own0, *order_id), x) {
                    assert(side_price_of(remove_from_side(own0, *order_id), x) == side_price_of(
                        own0,
                        x,
                    ));
                }
            }
        }
        Ok(MarketEvent::OrderCancelled {
            order_id: *order_id,
            remaining_quantity: removed.remaining_quantity,
        })
    }
}

/// One resting order replaced in place (same identifier, same position)
/// keeps the whole side's structure and identifiers.
#[verifier::spinoff_prover]
#[verifier::rlimit(100)]
pub proof fn lemma_update_order_side(
    levels: Seq<LevelModel>,
    side: Side,
    li: int,
    qi: int,
    o2: Order,
)
    requires
        side_model_wf(levels, side),
        side_distinct_ids(levels),
        0 <= li < levels.len(),
        0 <= qi < levels[li].1.len(),
        o2.id == levels[li].1[qi].id,
        o2.side == levels[li].1[qi].side,
        resting_ok(o2, levels[li].0),
    ensures
        ({
            let after = levels.update(li, (levels[li].0, levels[li].1.update(qi, o2)));
            &&& side_model_wf(after, side)
            &&& side_distinct_ids(after)
            &&& forall|x: OrderId| side_has_id(after, x) <==> side_has_id(levels, x)
            &&& forall|x: OrderId|
                side_has_id(after, x) ==> side_price_of(after, x) == side_price_of(levels, x)
            &&& after.len() == levels.len()
            &&& forall|k: int| 0 <= k < after.len() ==> (#[trigger] after[k]).0 == levels[k].0
        }),
{
    let q = levels[li].1;
    let q2 = q.update(qi, o2);
    let after = levels.update(li, (levels[li].0, q2));
    assert(after[li] == (levels[li].0, q2));
    assert forall|b: int| 0 <= b < q2.len() implies resting_ok(#[trigger] q2[b], levels[li].0) by {
        if b != qi {
            assert(q2[b] == q[b]);
        }
    }
    assert forall|x: int, y: int| 0 <= x < y < q2.len() implies q2[x].id != q2[y].id by {
        assert(q2[x].id == q[x].id);
        assert(q2[y].id == q[y].id);
    }
    assert forall|k: int| 0 <= k < after.len() implies queue_wf(#[trigger] after[k].1, after[k].0)
        && after[k].1.len() > 0 && after[k].0 > 0 by {
        if k != li {
            assert(after[k] == levels[k]);
        }
    }
    assert forall|k: int, j: int| 0 <= k < j < after.len() implies level_before(
        side,
        after[k].0,
        after[j].0,
    ) by {
        assert(after[k].0 == levels[k].0);
        assert(after[j].0 == levels[j].0);
    }
    assert forall|k: int, j: int|
        0 <= k < after.len() && 0 <= j < after[k].1.len() implies (#[trigger] after[k].1[j]).side
            == side by {
        if k != li {
            assert(after[k] == levels[k]);
            assert(levels[k].1[j].side == side);
        } else {
            assert(q2[j].side == q[j].side);
            assert(levels[li].1[j].side == side);
        }
    }
    assert forall|k: int, m: int, x: int, y: int|
        0 <= k < after.len() && 0 <= m < after.len() && 0 <= x < after[k].1.len() && 0 <= y
            < after[m].1.len() && (k != m || x != y) implies (#[trigger] after[k].1[x]).id != (
    #[trigger] after[m].1[y]).id by {
        assert(after[k].1[x].id == levels[k].1[x].id);
        assert(after[m].1[y].id == levels[m].1[y].id);
    }
    assert forall|x: OrderId| side_has_id(after, x) implies side_has_id(levels, x) by {
        let k = choose|k: int| 0 <= k < after.len() && has_id(#[trigger] after[k].1, x);
        let b = choose|b: int| 0 <= b < after[k].1.len() && after[k].1[b].id == x;
        assert(levels[k].1[b].id == x);
        assert(has_id(levels[k].1, x));
    }
    assert forall|x: OrderId| side_has_id(levels, x) implies side_has_id(after, x) by {
        let k = choose|k: int| 0 <= k < levels.len() && has_id(#[trigger] levels[k].1, x);
        let b = choose|b: int| 0 <= b < levels[k].1.len() && levels[k].1[b].id == x;
        assert(after[k].1[b].id == x);
        assert(has_id(after[k].1, x));
    }
    assert forall|x: OrderId| side_has_id(after, x) implies #[trigger] side_price_of(after, x)
        == side_price_of(levels, x) by {
        let k = choose|k: int| 0 <= k < after.len() && has_id(#[trigger] after[k].1, x);
        let b = choose|b: int| 0 <= b < after[k].1.len() && after[k].1[b].id == x;
        lemma_side_price_unique(after, k, x);
        assert(levels[k].1[b].id == x);
        assert(has_id(levels[k].1, x));
        lemma_side_price_unique(levels, k, x);
    }
}

/// What `modify_order_quantity` decides and does for every input.
pub open spec fn modify_post(
    book0: OrderBook,
    book1: OrderBook,
    order_id: OrderId,
    new_quantity: Quantity,
    r: Result<MarketEvent, OrderBookError>,
) -> bool {
    if new_quantity == 0 {
        r matches Err(e) && e == OrderBookError::InvalidQuantity && book1 == book0
    } else if !book0.locations.spec_has(order_id) {
        r matches Err(e) && e == OrderBookError::OrderNotFound && book1 == book0
    } else {
        let loc = book0.locations.spec_loc(order_id);
        let own0 = book0.side_model(loc.side);
        let li = side_level_idx(own0, order_id);
        let q = own0[li].1;
        let qi = idx_of(q, order_id);
        let o = q[qi];
        if new_quantity <= o.filled_quantity {
            r matches Err(e) && e == OrderBookError::InvalidQuantity && book1 == book0
        } else if o.filled_quantity + new_quantity > u64::MAX || sum_remaining(q) + (new_quantity
            - o.filled_quantity) > u64::MAX {
            r matches Err(e) && e == OrderBookError::OrderTooLarge && book1 == book0
        } else {
            let o2 = Order {
                remaining_quantity: (new_quantity - o.filled_quantity) as u64,
                original_quantity: new_quantity,
                ..o
            };
            &&& r matches Ok(ev) && ev == (MarketEvent::OrderModified {
                order_id: order_id,
                new_price: Option::<Price>::None,
                new_quantity: Some(new_quantity),
            })
            &&& book1.side_model(loc.side) == own0.update(li, (own0[li].0, q.update(qi, o2)))
            &&& book1.side_model(opposite(loc.side)) == book0.side_model(opposite(loc.side))
            &&& book1.locations == book0.locations
            &&& book1.symbol == book0.symbol
            &&& book1.last_trade_price == book0.last_trade_price
            &&& book1.total_trades == book0.total_trades
            &&& book1.total_volume == book0.total_volume
        }
    }
}

impl OrderBook {
    /// Change a resting order's total quantity in place, preserving its time
    /// priority; its remaining quantity becomes the new total minus what has
    /// already been filled.
    #[verifier::rlimit(100)]
    pub fn modify_order_quantity(&mut self, order_id: &OrderId, new_quantity: Quantity) -> (r:
        Result<MarketEvent, OrderBookError>)
        requires
            old(self).inv(),
        ensures
            final(self).inv(),
            modify_post(*old(self), *final(self), *order_id, new_quantity, r),
    {
        let ghost book0 = *old(self);
        if new_quantity == 0 {
            return Err(OrderBookError::InvalidQuantity);
        }
        let loc = match self.locations.locate(*order_id) {
            Some(l) => l,
            None => {
                return Err(OrderBookError::OrderNotFound);
            },
        };
        let ghost own0 = book0.side_model(loc.side);
        proof {
            lemma_distinct_prices(self.bids@, Side::Buy);
            lemma_distinct_prices(self.asks@, Side::Sell);
            assert(side_has_id(own0, *order_id));
            assert(side_price_of(own0, *order_id) == loc.price);
            let li = side_level_idx(own0, *order_id);
            assert(0 <= li < own0.len() && has_id(own0[li].1, *order_id));
            lemma_side_price_unique(own0, li, *order_id);
            assert(own0[li].0 == loc.price);
            assert(side_has_price(own0, loc.price));
        }
        let found = match loc.side {
            Side::Buy => find_level_index(&self.bids, loc.price),
            Side::Sell => find_level_index(&self.asks, loc.price),
        };
        let idx = match found {
            Some(i) => i,
            None => {
                proof {
                    assert(false);
                }
                return Err(OrderBookError::OrderNotFound);
            },
        };
        let ghost li = side_level_idx(own0, *order_id);
        proof {
            assert(li == idx as int) by {
                if loc.side == Side::Buy {
                    assert(own0[idx as int].0 == book0.bids@[idx as int].price);
                } else {
                    assert(own0[idx as int].0 == book0.asks@[idx as int].price);
                }
                if li != idx as int {
                    assert(level_before(loc.side, own0[li].0, own0[idx as int].0) || level_before(
                        loc.side,
                        own0[idx as int].0,
                        own0[li].0,
                    ));
                }
            }
        }
        let existing = match loc.side {
            Side::Buy => self.bids[idx].get_order(order_id),
            Side::Sell => self.asks[idx].get_order(order_id),
        };
        let o = match existing {
            Some(o) => o,
            None => {
                proof {
                    assert(false);
                }
                return Err(OrderBookError::OrderNotFound);
            },
        };
        if new_quantity <= o.filled_quantity {
            return Err(OrderBookError::InvalidQuantity);
        }
        let new_remaining = new_quantity - o.filled_quantity;
        let level_total = match loc.side {
            Side::Buy => self.bids[idx].total_quantity(),
            Side::Sell => self.asks[idx].total_quantity(),
        };
        if o.filled_quantity > u64::MAX - new_quantity || new_remaining > u64::MAX - level_total {
            proof {
                let q = own0[li].1;
                assert(level_total == sum_remaining(q));
            }
            return Err(OrderBookError::OrderTooLarge);
        }
        let ghost q = own0[li].1;
        let ghost qi = idx_of(q, *order_id);
        proof {
            assert(level_total == sum_remaining(q));
        }
        match loc.side {
            Side::Buy => {
                let ghost vec0 = self.bids@;
                let mut lvl = self.bids.remove(idx);
                let got = lvl.modify_order_quantity(order_id, new_remaining);
                proof {
                    assert(got is Some);
                }
                self.bids.insert(idx, lvl);
                proof {
                    let o2 = Order {
                        remaining_quantity: new_remaining,
                        original_quantity: (q[qi].filled_quantity + new_remaining) as u64,
                        ..q[qi]
                    };
                    assert(side_view(self.bids@) =~= own0.update(li, (own0[li].0, q.update(qi, o2))))
                        by {
                        assert forall|k: int| 0 <= k < self.bids@.len() implies side_view(
                            self.bids@,
                        )[k] == own0.update(li, (own0[li].0, q.update(qi, o2)))[k] by {
                            if k != li {
                                assert(self.bids@[k] == vec0[k]);
                            }
                        }
                    }
                }
            },
            Side::Sell => {
                let ghost vec0 = self.asks@;
                let mut lvl = self.asks.remove(idx);
                let got = lvl.modify_order_quantity(order_id, new_remaining);
                proof {
                    assert(got is Some);
                }
                self.asks.insert(idx, lvl);
                proof {
                    let o2 = Order {
                        remaining_quantity: new_remaining,
                        original_quantity: (q[qi].filled_quantity + new_remaining) as u64,
                        ..q[qi]
                    };
                    assert(side_view(self.asks@) =~= own0.update(li, (own0[li].0, q.update(qi, o2))))
                        by {
                        assert forall|k: int| 0 <= k < self.asks@.len() implies side_view(
                            self.asks@,
                        )[k] == own0.update(li, (own0[li].0, q.update(qi, o2)))[k] by {
                            if k != li {
                                assert(self.asks@[k] == vec0[k]);
                            }
                        }
                    }
                }
            },
        }
        proof {
            let o2 = Order {
                remaining_quantity: (new_quantity - q[qi].filled_quantity) as u64,
                original_quantity: new_quantity,
                ..q[qi]
            };
            assert(resting_ok(o2, own0[li].0)) by {
                assert(resting_ok(q[qi], own0[li].0));
            }
            lemma_update_order_side(own0, loc.side, li, qi, o2);
            let book1 = *self;
            if loc.side == Side::Buy {
                assert(forall|k: int|
                    0 <= k < self.bids@.len() ==> (#[trigger] self.bids@[k]).wf());
            } else {
                assert(forall|k: int|
                    0 <= k < self.asks@.len() ==> (#[trigger] self.asks@[k]).wf());
            }
            assert forall|x: OrderId| #[trigger] book1.locations.spec_has(x) <==> (side_has_id(
                book1.bids_model(),
                x,
            ) || side_has_id(book1.asks_model(), x)) by {
                assert(book0.locations.spec_has(x) <==> (side_has_id(book0.bids_model(), x)
                    || side_has_id(book0.asks_model(), x)));
            }
            assert forall|x: OrderId| book1.locations.spec_has(x) implies match #[trigger] book1
                .locations.spec_loc(x).side {
                Side::Buy => side_has_id(book1.bids_model(), x) && side_price_of(
                    book1.bids_model(),
                    x,
                ) == book1.locations.spec_loc(x).price && !side_has_id(book1.asks_model(), x),
                Side::Sell => side_has_id(book1.asks_model(), x) && side_price_of(
                    book1.asks_model(),
                    x,
                ) == book1.locations.spec_loc(x).price && !side_has_id(book1.bids_model(), x),
            } by {
                assert(book0.locations.spec_has(x));
                assert(book1.locations.spec_loc(x) == book0.locations.spec_loc(x));
            }
        }
        Ok(MarketEvent::OrderModified {
            order_id: *order_id,
            new_price: None,
            new_quantity: Some(new_quantity),
        })
    }
}

/// Why a market order submission is rejected, if it is.
pub open spec fn market_reject(book: OrderBook, order: Order) -> Option<OrderBookError> {
    if order.symbol@ != book.symbol@ {
        Some(OrderBookError::InvalidSymbol)
    } else if order.order_type != OrderType::Market {
        Some(OrderBookError::InvalidOrderType)
    } else if order.price != 0 {
        Some(OrderBookError::InvalidPrice)
    } else if order.original_quantity == 0 {
        Some(OrderBookError::InvalidQuantity)
    } else if !order.spec_is_fresh() {
        Some(OrderBookError::InvalidOrderState)
    } else {
        None
    }
}

/// The matched part of a submission: one trade event per fill, the opposite
/// side reduced in price-time priority, and the statistics absorbing the
/// fills. `rested` tells whether one more event follows the trades.
pub open spec fn matched_events_ok(
    book0: OrderBook,
    book1: OrderBook,
    order: Order,
    events: Seq<MarketEvent>,
    is_market: bool,
    extra_events: int,
) -> bool {
    let aside = order.side;
    let opp0 = book0.side_model(opposite(aside));
    let fills = match_fills(opp0, aside, order.price, is_market, order.remaining_quantity);
    let total = fills_total(fills);
    &&& book1.symbol == book0.symbol
    &&& book1.side_model(opposite(aside)) == levels_after_match(
        opp0,
        aside,
        order.price,
        is_market,
        order.remaining_quantity,
    )
    &&& events.len() == fills.len() + extra_events
    &&& forall|i: int|
        0 <= i < fills.len() ==> ((#[trigger] events[i]) matches MarketEvent::Trade { trade }
            && trade_matches_fill(trade, order, fills[i]))
    &&& forall|x: OrderId|
        #![trigger book1.locations.spec_has(x)]
        book1.locations.spec_has(x) <==> (book0.locations.spec_has(x) && !spec_fully_filled(
            fills,
            x,
        ))
    &&& forall|x: OrderId|
        book1.locations.spec_has(x) ==> book1.locations.spec_loc(x) == book0.locations.spec_loc(
            x,
        )
    &&& book1.last_trade_price == if fills.len() > 0 {
        fills[fills.len() - 1].0
    } else {
        book0.last_trade_price
    }
    &&& book1.total_trades == vstd::wrapping::u64_specs::wrapping_add(
        book0.total_trades,
        fills.len() as u64,
    )
    &&& book1.total_volume == vstd::wrapping::u64_specs::wrapping_add(
        book0.total_volume,
        total as u64,
    )
}

/// The full contract of `add_market_order`: rejected inputs and books without
/// liquidity leave the book unchanged; otherwise the order trades through the
/// opposite side and any residual is discarded.
pub open spec fn add_market_post(
    book0: OrderBook,
    book1: OrderBook,
    order: Order,
    r: Result<Vec<MarketEvent>, OrderBookError>,
) -> bool {
    match market_reject(book0, order) {
        Some(e) => r matches Err(e2) && e2 == e && book1 == book0,
        None => {
            let fills = match_fills(
                book0.side_model(opposite(order.side)),
                order.side,
                order.price,
                true,
                order.remaining_quantity,
            );
            if fills.len() == 0 {
                &&& r matches Err(e) && e == OrderBookError::NoLiquidity
                &&& book1.symbol == book0.symbol
                &&& book1.bids_model() == book0.bids_model()
                &&& book1.asks_model() == book0.asks_model()
                &&& book1.locations == book0.locations
                &&& book1.last_trade_price == book0.last_trade_price
                &&& book1.total_trades == book0.total_trades
                &&& book1.total_volume == book0.total_volume
            } else {
                &&& r matches Ok(events) && matched_events_ok(
                    book0,
                    book1,
                    order,
                    events@,
                    true,
                    0,
                )
                &&& book1.side_model(order.side) == book0.side_model(order.side)
            }
        },
    }
}

/// Why an immediate-or-cancel or fill-or-kill submission is rejected.
pub open spec fn timed_reject(
    book: OrderBook,
    order: Order,
    required_type: OrderType,
) -> Option<OrderBookError> {
    if order.symbol@ != book.symbol@ {
        Some(OrderBookError::InvalidSymbol)
    } else if order.order_type != required_type {
        Some(OrderBookError::InvalidOrderType)
    } else if order.price == 0 {
        Some(OrderBookError::InvalidPrice)
    } else if order.original_quantity == 0 {
        Some(OrderBookError::InvalidQuantity)
    } else if !order.spec_is_fresh() {
        Some(OrderBookError::InvalidOrderState)
    } else {
        None
    }
}

/// The full contract of `add_ioc_order`: match what is possible now at the
/// limit price; the residual is silently dropped, never rested.
pub open spec fn add_ioc_post(
    book0: OrderBook,
    book1: OrderBook,
    order: Order,
    r: Result<Vec<MarketEvent>, OrderBookError>,
) -> bool {
    match timed_reject(book0, order, OrderType::ImmediateOrCancel) {
        Some(e) => r matches Err(e2) && e2 == e && book1 == book0,
        None => {
            &&& r matches Ok(events) && matched_events_ok(book0, book1, order, events@, false, 0)
            &&& book1.side_model(order.side) == book0.side_model(order.side)
        },
    }
}

/// The full contract of `add_fok_order`: either the whole quantity can trade
/// at permitted prices and does, or nothing happens at all and the empty
/// event list reports the rejection.
pub open spec fn add_fok_post(
    book0: OrderBook,
    book1: OrderBook,
    order: Order,
    r: Result<Vec<MarketEvent>, OrderBookError>,
) -> bool {
    match timed_reject(book0, order, OrderType::FillOrKill) {
        Some(e) => r matches Err(e2) && e2 == e && book1 == book0,
        None => {
            let depth = crate::matching::eligible_depth(
                book0.side_model(opposite(order.side)),
                order.side,
                order.price,
                false,
            );
            if depth < order.remaining_quantity {
                &&& r matches Ok(events) && events@.len() == 0
                &&& book1 == book0
            } else {
                &&& r matches Ok(events) && matched_events_ok(
                    book0,
                    book1,
                    order,
                    events@,
                    false,
                    0,
                )
                &&& book1.side_model(order.side) == book0.side_model(order.side)
            }
        },
    }
}

impl OrderBook {
    /// Execute a market order immediately against the opposite side; errors
    /// with no liquidity rather than resting anything.
    #[verifier::rlimit(100)]
    pub fn add_market_order(&mut self, order: Order) -> (r: Result<
        Vec<MarketEvent>,
        OrderBookError,
    >)
        requires
            old(self).inv(),
        ensures
            final(self).inv(),
            add_market_post(*old(self), *final(self), order, r),
    {
        let ghost book0 = *old(self);
        if !order.symbol.eq(&self.symbol) {
            return Err(OrderBookError::InvalidSymbol);
        }
        if !(order.order_type == OrderType::Market) {
            return Err(OrderBookError::InvalidOrderType);
        }
        if order.price != 0 {
            return Err(OrderBookError::InvalidPrice);
        }
        if order.original_quantity == 0 {
            return Err(OrderBookError::InvalidQuantity);
        }
        if !(order.status == OrderStatus::New) || order.filled_quantity != 0
            || order.remaining_quantity != order.original_quantity {
            return Err(OrderBookError::InvalidOrderState);
        }
        let ghost aside = order.side;
        let ghost opp0 = book0.side_model(opposite(aside));
        let want = order.remaining_quantity;
        let mut agg = order;
        let ghost ord0 = agg;
        let trades = match agg.side {
            Side::Buy => MatchingEngine::match_market_order(
                &mut agg,
                &mut self.asks,
                &mut self.locations,
            ),
            Side::Sell => MatchingEngine::match_market_order(
                &mut agg,
                &mut self.bids,
                &mut self.locations,
            ),
        };
        let ghost fills = match_fills(opp0, aside, ord0.price, true, want);
        proof {
            lemma_mid_inv(
                book0.locations,
                self.locations,
                book0.bids_model(),
                book0.asks_model(),
                self.bids_model(),
                self.asks_model(),
                aside,
                ord0.price,
                true,
                want,
            );
            lemma_fills_total_nonneg(fills);
            lemma_match_wf(opp0, aside, ord0.price, true, want, opposite(aside));
            lemma_match_fill_attrs(opp0, aside, ord0.price, true, want, opposite(aside));
        }
        let n = trades.len();
        if n == 0 {
            proof {
                // no fills: the matching pass left both sides as they were
                assert(fills.len() == 0);
                assert(self.side_model(opposite(aside)) == levels_after_match(
                    opp0,
                    aside,
                    ord0.price,
                    true,
                    want,
                ));
                assert(levels_after_match(opp0, aside, ord0.price, true, want) == opp0);
            }
            return Err(OrderBookError::NoLiquidity);
        }
        self.total_trades = self.total_trades.wrapping_add(n as u64);
        let vol = want - agg.remaining_quantity;
        self.total_volume = self.total_volume.wrapping_add(vol);
        self.last_trade_price = trades[n - 1].price;
        proof {
            assert(trade_matches_fill(trades@[n - 1], ord0, fills[n as int - 1]));
            assert(fills[n as int - 1].0 > 0);
        }
        let mut events: Vec<MarketEvent> = Vec::new();
        let mut i: usize = 0;
        while i < n
            invariant
                n == trades@.len(),
                i <= n,
                events@.len() == i,
                forall|k: int|
                    0 <= k < i ==> #[trigger] events@[k] == (MarketEvent::Trade {
                        trade: trades@[k],
                    }),
            decreases n - i,
        {
            events.push(MarketEvent::Trade { trade: trades[i].clone() });
            i = i + 1;
        }
        Ok(events)
    }

    /// Execute an immediate-or-cancel order: match what the limit price
    /// permits right now and drop the rest without resting it.
    #[verifier::rlimit(100)]
    pub fn add_ioc_order(&mut self, order: Order) -> (r: Result<
        Vec<MarketEvent>,
        OrderBookError,
    >)
        requires
            old(self).inv(),
        ensures
            final(self).inv(),
            add_ioc_post(*old(self), *final(self), order, r),
    {
        let ghost book0 = *old(self);
        if !order.symbol.eq(&self.symbol) {
            return Err(OrderBookError::InvalidSymbol);
        }
        if !(order.order_type == OrderType::ImmediateOrCancel) {
            return Err(OrderBookError::InvalidOrderType);
        }
        if order.price == 0 {
            return Err(OrderBookError::InvalidPrice);
        }
        if order.original_quantity == 0 {
            return Err(OrderBookError::InvalidQuantity);
        }
        if !(order.status == OrderStatus::New) || order.filled_quantity != 0
            || order.remaining_quantity != order.original_quantity {
            return Err(OrderBookError::InvalidOrderState);
        }
        let ghost aside = order.side;
        let ghost opp0 = book0.side_model(opposite(aside));
        let want = order.remaining_quantity;
        let mut agg = order;
        let ghost ord0 = agg;
        let trades = match agg.side {
            Side::Buy => MatchingEngine::match_ioc_order(
                &mut agg,
                &mut self.asks,
                &mut self.locations,
            ),
            Side::Sell => MatchingEngine::match_ioc_order(
                &mut agg,
                &mut self.bids,
                &mut self.locations,
            ),
        };
        let ghost fills = match_fills(opp0, aside, ord0.price, false, want);
        proof {
            lemma_mid_inv(
                book0.locations,
                self.locations,
                book0.bids_model(),
                book0.asks_model(),
                self.bids_model(),
                self.asks_model(),
                aside,
                ord0.price,
                false,
                want,
            );
            lemma_fills_total_nonneg(fills);
            lemma_match_wf(opp0, aside, ord0.price, false, want, opposite(aside));
            lemma_match_fill_attrs(opp0, aside, ord0.price, false, want, opposite(aside));
        }
        let n = trades.len();
        if n > 0 {
            self.total_trades = self.total_trades.wrapping_add(n as u64);
            let vol = want - agg.remaining_quantity;
            self.total_volume = self.total_volume.wrapping_add(vol);
            self.last_trade_price = trades[n - 1].price;
            proof {
                assert(trade_matches_fill(trades@[n - 1], ord0, fills[n as int - 1]));
                assert(fills[n as int - 1].0 > 0);
                // cancelling the residual does not change what was filled
                assert(fills_total(fills) == want - agg.remaining_quantity);
            }
        }
        let mut events: Vec<MarketEvent> = Vec::new();
        let mut i: usize = 0;
        while i < n
            invariant
                n == trades@.len(),
                i <= n,
                events@.len() == i,
                forall|k: int|
                    0 <= k < i ==> #[trigger] events@[k] == (MarketEvent::Trade {
                        trade: trades@[k],
                    }),
            decreases n - i,
        {
            events.push(MarketEvent::Trade { trade: trades[i].clone() });
            i = i + 1;
        }
        Ok(events)
    }

    /// Execute a fill-or-kill order: either the whole quantity trades at
    /// permitted prices, or the book is left untouched and the empty event
    /// list reports the rejection.
    #[verifier::rlimit(100)]
    pub fn add_fok_order(&mut self, order: Order) -> (r: Result<
        Vec<MarketEvent>,
        OrderBookError,
    >)
        requires
            old(self).inv(),
        ensures
            final(self).inv(),
            add_fok_post(*old(self), *final(self), order, r),
    {
        let ghost book0 = *old(self);
        if !order.symbol.eq(&self.symbol) {
            return Err(OrderBookError::InvalidSymbol);
        }
        if !(order.order_type == OrderType::FillOrKill) {
            return Err(OrderBookError::InvalidOrderType);
        }
        if order.price == 0 {
            return Err(OrderBookError::InvalidPrice);
        }
        if order.original_quantity == 0 {
            return Err(OrderBookError::InvalidQuantity);
        }
        if !(order.status == OrderStatus::New) || order.filled_quantity != 0
            || order.remaining_quantity != order.original_quantity {
            return Err(OrderBookError::InvalidOrderState);
        }
        let ghost aside = order.side;
        let ghost opp0 = book0.side_model(opposite(aside));
        let want = order.remaining_quantity;
        let mut agg = order;
        let ghost ord0 = agg;
        let trades = match agg.side {
            Side::Buy => MatchingEngine::match_fok_order(
                &mut agg,
                &mut self.asks,
                &mut self.locations,
            ),
            Side::Sell => MatchingEngine::match_fok_order(
                &mut agg,
                &mut self.bids,
                &mut self.locations,
            ),
        };
        let ghost depth = crate::matching::eligible_depth(opp0, aside, ord0.price, false);
        let ghost fills = match_fills(opp0, aside, ord0.price, false, want);
        if trades.len() == 0 && agg.remaining_quantity > 0 {
            proof {
                assert(depth < want);
                assert(*self == book0);
            }
            return Ok(Vec::new());
        }
        proof {
            assert(depth >= want) by {
                if depth < want {
                    assert(trades@.len() == 0 && agg.remaining_quantity > 0);
                }
            }
            lemma_mid_inv(
                book0.locations,
                self.locations,
                book0.bids_model(),
                book0.asks_model(),
                self.bids_model(),
                self.asks_model(),
                aside,
                ord0.price,
                false,
                want,
            );
            lemma_fills_total_nonneg(fills);
            lemma_match_wf(opp0, aside, ord0.price, false, want, opposite(aside));
            lemma_match_fill_attrs(opp0, aside, ord0.price, false, want, opposite(aside));
        }
        let n = trades.len();
        if n > 0 {
            self.total_trades = self.total_trades.wrapping_add(n as u64);
            let vol = want - agg.remaining_quantity;
            self.total_volume = self.total_volume.wrapping_add(vol);
            self.last_trade_price = trades[n - 1].price;
            proof {
                assert(trade_matches_fill(trades@[n - 1], ord0, fills[n as int - 1]));
                assert(fills[n as int - 1].0 > 0);
            }
        }
        let mut events: Vec<MarketEvent> = Vec::new();
        let mut i: usize = 0;
        while i < n
            invariant
                n == trades@.len(),
                i <= n,
                events@.len() == i,
                forall|k: int|
                    0 <= k < i ==> #[trigger] events@[k] == (MarketEvent::Trade {
                        trade: trades@[k],
                    }),
            decreases n - i,
        {
            events.push(MarketEvent::Trade { trade: trades[i].clone() });
            i = i + 1;
        }
        Ok(events)
    }
}

/// Removing an order never raises any level's total, and adds no price.
#[verifier::spinoff_prover]
#[verifier::rlimit(100)]
pub proof fn lemma_remove_side_sums(levels: Seq<LevelModel>, side: Side, id: OrderId, p: Price)
    requires
        side_model_wf(levels, side),
        side_distinct_ids(levels),
        side_has_id(levels, id),
        side_has_price(remove_from_side(levels, id), p),
    ensures
        side_has_price(levels, p),
        sum_remaining(
            remove_from_side(levels, id)[side_price_idx(remove_from_side(levels, id), p)].1,
        ) <= sum_remaining(levels[side_price_idx(levels, p)].1),
{
    lemma_distinct_prices_model(levels, side);
    let i = side_level_idx(levels, id);
    assert(0 <= i < levels.len() && has_id(levels[i].1, id));
    let q = levels[i].1;
    let a = idx_of(q, id);
    assert(0 <= a < q.len() && q[a].id == id);
    assert(queue_wf(q, levels[i].0));
    let after = remove_from_side(levels, id);
    let k = side_price_idx(after, p);
    assert(0 <= k < after.len() && after[k].0 == p);
    lemma_remove_side(levels, side, id);
    lemma_distinct_prices_model(after, side);
    if q.len() == 1 {
        assert(after == levels.remove(i));
        let k0 = if k < i {
            k
        } else {
            k + 1
        };
        assert(after[k] == levels[k0]);
        assert(side_has_price(levels, p));
        let m = side_price_idx(levels, p);
        assert(0 <= m < levels.len() && levels[m].0 == p);
        assert(m == k0);
        lemma_sum_nonneg(levels[k0].1);
    } else {
        let q2 = q.remove(a);
        assert(after == levels.update(i, (levels[i].0, q2)));
        assert(after[k].0 == levels[k].0);
        assert(side_has_price(levels, p));
        let m = side_price_idx(levels, p);
        assert(0 <= m < levels.len() && levels[m].0 == p);
        assert(m == k);
        if k == i {
            crate::price_level::lemma_sum_remove(q, a);
        } else {
            assert(after[k] == levels[k]);
        }
    }
}

/// Distinct prices at the model level.
pub proof fn lemma_distinct_prices_model(levels: Seq<LevelModel>, side: Side)
    requires
        side_model_wf(levels, side),
    ensures
        forall|i: int, j: int| 0 <= i < j < levels.len() ==> levels[i].0 != levels[j].0,
{
    assert forall|i: int, j: int| 0 <= i < j < levels.len() implies levels[i].0 != levels[j].0 by {
        assert(level_before(side, levels[i].0, levels[j].0));
    }
}

/// Round trip: resting a new order on a side and then removing it restores
/// the side exactly. Together with the location table gaining and losing the
/// one entry, a limit order that rests without crossing and is cancelled at
/// once leaves the book as it was: same levels, same best prices, and the
/// same number of resting orders.
#[verifier::spinoff_prover]
#[verifier::rlimit(100)]
pub proof fn lemma_add_cancel_round_trip(levels: Seq<LevelModel>, side: Side, order: Order)
    requires
        side_model_wf(levels, side),
        side_distinct_ids(levels),
        resting_ok(order, order.price),
        order.side == side,
        order.price > 0,
        !side_has_id(levels, order.id),
    ensures
        remove_from_side(insert_into_side(levels, side, order), order.id) == levels,
    decreases levels.len(),
{
    lemma_insert_side(levels, side, order);
    let after = insert_into_side(levels, side, order);
    assert(side_has_id(after, order.id));
    if levels.len() == 0 {
        assert(after == seq![(order.price, seq![order])]);
        let li = side_level_idx(after, order.id);
        assert(0 <= li < after.len() && has_id(after[li].1, order.id));
        assert(li == 0);
        assert(after[0].1.len() == 1);
        assert(remove_from_side(after, order.id) =~= levels);
    } else if level_before(side, levels[0].0, order.price) {
        let rest = levels.drop_first();
        crate::matching::lemma_side_model_drop(levels, side);
        assert(!side_has_id(rest, order.id)) by {
            if side_has_id(rest, order.id) {
                let i = choose|i: int| 0 <= i < rest.len() && has_id(#[trigger] rest[i].1, order.id);
                assert(rest[i] == levels[i + 1]);
                assert(side_has_id(levels, order.id));
            }
        }
        lemma_add_cancel_round_trip(rest, side, order);
        lemma_insert_side(rest, side, order);
        let tail = insert_into_side(rest, side, order);
        assert(after == seq![levels[0]] + tail);
        let li = side_level_idx(after, order.id);
        assert(0 <= li < after.len() && has_id(after[li].1, order.id));
        assert(li > 0) by {
            if li == 0 {
                assert(after[0] == levels[0]);
                assert(has_id(levels[0].1, order.id));
                assert(side_has_id(levels, order.id));
            }
        }
        assert(after[li] == tail[li - 1]);
        assert(side_has_id(tail, order.id)) by {
            assert(has_id(tail[li - 1].1, order.id));
        }
        let ti = side_level_idx(tail, order.id);
        assert(0 <= ti < tail.len() && has_id(tail[ti].1, order.id));
        // the holding level is unique on the combined side
        assert(ti == li - 1) by {
            if ti != li - 1 {
                let a = choose|a: int| 0 <= a < tail[ti].1.len() && tail[ti].1[a].id == order.id;
                let b = choose|b: int|
                    0 <= b < tail[li - 1].1.len() && (#[trigger] tail[li - 1].1[b]).id
                        == order.id;
                assert(after[ti + 1] == tail[ti]);
                assert(after[li] == tail[li - 1]);
                assert(after[ti + 1].1[a].id != after[li].1[b].id);
            }
        }
        let q = after[li].1;
        assert(q == tail[ti].1);
        assert(idx_of(q, order.id) == idx_of(tail[ti].1, order.id));
        if q.len() == 1 {
            assert(remove_from_side(after, order.id) == after.remove(li));
            assert(remove_from_side(tail, order.id) == tail.remove(ti));
            assert(tail.remove(ti) == rest);
            assert(after.remove(li) =~= seq![levels[0]] + rest);
            assert(seq![levels[0]] + rest =~= levels);
        } else {
            let q2 = q.remove(idx_of(q, order.id));
            assert(remove_from_side(after, order.id) == after.update(li, (after[li].0, q2)));
            assert(remove_from_side(tail, order.id) == tail.update(ti, (tail[ti].0, q2)));
            assert(tail.update(ti, (tail[ti].0, q2)) == rest);
            assert(after.update(li, (after[li].0, q2)) =~= seq![levels[0]] + tail.update(
                ti,
                (tail[ti].0, q2),
            ));
            assert(seq![levels[0]] + rest =~= levels);
        }
    } else if levels[0].0 == order.price {
        let q = levels[0].1;
        let q2 = q.push(order);
        assert(after == levels.update(0, (levels[0].0, q2)));
        let li = side_level_idx(after, order.id);
        assert(0 <= li < after.len() && has_id(after[li].1, order.id));
        assert(li == 0) by {
            if li != 0 {
                assert(after[li] == levels[li]);
                assert(side_has_id(levels, order.id));
            }
        }
        assert(after[0].1 == q2);
        let a = idx_of(q2, order.id);
        assert(0 <= a < q2.len() && q2[a].id == order.id);
        assert(a == q.len() as int) by {
            if a < q.len() {
                assert(q2[a] == q[a]);
                assert(has_id(q, order.id));
                assert(side_has_id(levels, order.id));
            }
        }
        assert(q.len() > 0);
        assert(q2.len() > 1);
        assert(q2.remove(a) =~= q);
        assert(remove_from_side(after, order.id) == after.update(0, (after[0].0, q2.remove(a))));
        assert(after.update(0, (after[0].0, q)) =~= levels);
    } else {
        assert(after == seq![(order.price, seq![order])] + levels);
        let li = side_level_idx(after, order.id);
        assert(0 <= li < after.len() && has_id(after[li].1, order.id));
        assert(li == 0) by {
            if li != 0 {
                assert(after[li] == levels[li - 1]);
                assert(side_has_id(levels, order.id));
            }
        }
        assert(after[0].1 =~= seq![order]);
        assert(after[0].1.len() == 1);
        assert(remove_from_side(after, order.id) == after.remove(0));
        assert(after.remove(0) =~= levels);
    }
}
} // verus!

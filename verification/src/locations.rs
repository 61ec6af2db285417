//! The order location table: order identifier to (price, side).

use vstd::prelude::*;

use crate::types::OrderId;
use crate::types::OrderLocation;

verus! {

/// Maps each resting order's identifier to the price level it rests at.
#[derive(Debug)]
pub struct LocationTable {
    /// One entry per resting order; identifiers are unique.
    pub entries: Vec<(OrderId, OrderLocation)>,
}

impl LocationTable {
    /// No two entries share an identifier.
    pub open spec fn wf(self) -> bool {
        forall|i: int, j: int|
            0 <= i < j < self.entries@.len() ==> self.entries@[i].0 != self.entries@[j].0
    }

    /// Whether some entry carries this identifier.
    pub open spec fn spec_has(self, id: OrderId) -> bool {
        exists|i: int| 0 <= i < self.entries@.len() && self.entries@[i].0 == id
    }

    /// The index of the entry with this identifier (unique when well formed).
    pub open spec fn spec_idx(self, id: OrderId) -> int {
        choose|i: int| 0 <= i < self.entries@.len() && self.entries@[i].0 == id
    }

    /// The location recorded for this identifier.
    pub open spec fn spec_loc(self, id: OrderId) -> OrderLocation {
        self.entries@[self.spec_idx(id)].1
    }

    /// An empty table.
    pub fn new() -> (r: LocationTable)
        ensures
            r.wf(),
            r.entries@ =~= Seq::<(OrderId, OrderLocation)>::empty(),
    {
        LocationTable { entries: Vec::new() }
    }

    /// Number of tracked orders.
    pub fn len(&self) -> (r: usize)
        ensures
            r == self.entries@.len(),
    {
        self.entries.len()
    }

    /// Look up the location of an order.
    pub fn locate(&self, id: OrderId) -> (r: Option<OrderLocation>)
        requires
            self.wf(),
        ensures
            match r {
                Some(loc) => self.spec_has(id) && loc == self.spec_loc(id),
                None => !self.spec_has(id),
            },
    {
        let n = self.entries.len();
        let mut i: usize = 0;
        while i < n
            invariant
                n == self.entries@.len(),
                i <= n,
                self.wf(),
                forall|j: int| 0 <= j < i ==> self.entries@[j].0 != id,
            decreases n - i,
        {
            if self.entries[i].0 == id {
                proof {
                    let s = self.entries@;
                    assert(s[i as int].0 == id);
                    assert(self.spec_has(id));
                    let k = self.spec_idx(id);
                    assert(0 <= k < s.len() && s[k].0 == id);
                    assert(k == i as int) by {
                        if k < i as int {
                            assert(s[k].0 != s[i as int].0);
                        }
                        if k > i as int {
                            assert(s[i as int].0 != s[k].0);
                        }
                    }
                }
                return Some(self.entries[i].1);
            }
            i = i + 1;
        }
        proof {
            if self.spec_has(id) {
                let k = self.spec_idx(id);
                assert(0 <= k < self.entries@.len() && self.entries@[k].0 == id);
                assert(self.entries@[k].0 != id);
            }
        }
        None
    }

    /// Whether an order is tracked.
    pub fn contains(&self, id: OrderId) -> (r: bool)
        requires
            self.wf(),
        ensures
            r == self.spec_has(id),
    {
        match self.locate(id) {
            Some(_) => true,
            None => false,
        }
    }

    /// Record the location of a newly rested order.
    pub fn register(&mut self, id: OrderId, loc: OrderLocation)
        requires
            old(self).wf(),
            !old(self).spec_has(id),
        ensures
            final(self).wf(),
            final(self).entries@ == old(self).entries@.push((id, loc)),
            forall|x: OrderId|
                final(self).spec_has(x) <==> (old(self).spec_has(x) || x == id),
            forall|x: OrderId|
                old(self).spec_has(x) ==> final(self).spec_loc(x) == old(self).spec_loc(x),
            final(self).spec_has(id) && final(self).spec_loc(id) == loc,
    {
        self.entries.push((id, loc));
        proof {
            let s0 = old(self).entries@;
            let s = self.entries@;
            assert forall|i: int, j: int| 0 <= i < j < s.len() implies s[i].0 != s[j].0 by {
                if j < s0.len() {
                } else {
                    assert(s[j] == (id, loc));
                    assert(s[i] == s0[i]);
                    if s0[i].0 == id {
                        assert(old(self).spec_has(id));
                    }
                }
            }
            assert forall|x: OrderId| final(self).spec_has(x) implies (old(self).spec_has(x)
                || x == id) by {
                let k = choose|k: int| 0 <= k < s.len() && s[k].0 == x;
                if k < s0.len() {
                    assert(s0[k].0 == x);
                }
            }
            assert forall|x: OrderId| (old(self).spec_has(x) || x == id) implies final(self)
                .spec_has(x) by {
                if x == id {
                    assert(s[s0.len() as int].0 == x);
                } else {
                    let k = choose|k: int| 0 <= k < s0.len() && s0[k].0 == x;
                    assert(s[k].0 == x);
                }
            }
            assert forall|x: OrderId| old(self).spec_has(x) implies #[trigger] final(self)
                .spec_loc(x) == old(self).spec_loc(x) by {
                let k0 = old(self).spec_idx(x);
                assert(0 <= k0 < s0.len() && s0[k0].0 == x);
                assert(s[k0].0 == x);
                assert(final(self).spec_has(x));
                let k = final(self).spec_idx(x);
                assert(0 <= k < s.len() && s[k].0 == x);
                assert(k == k0) by {
                    if k < s0.len() {
                        if k < k0 {
                            assert(s0[k].0 != s0[k0].0);
                        }
                        if k0 < k {
                            assert(s0[k0].0 != s0[k].0);
                        }
                    } else {
                        assert(s[k] == (id, loc));
                        assert(old(self).spec_has(id));
                    }
                }
            }
            assert(s[s0.len() as int].0 == id);
            assert(final(self).spec_has(id));
            let k = final(self).spec_idx(id);
            assert(0 <= k < s.len() && s[k].0 == id);
            assert(k == s0.len() as int) by {
                if k < s0.len() {
                    assert(s0[k].0 == id);
                    assert(old(self).spec_has(id));
                }
            }
        }
    }

    /// Drop the entry for this identifier, if present.
    pub fn unregister(&mut self, id: OrderId) -> (r: bool)
        requires
            old(self).wf(),
        ensures
            final(self).wf(),
            r == old(self).spec_has(id),
            old(self).spec_has(id) ==> final(self).entries@ == old(self).entries@.remove(
                old(self).spec_idx(id),
            ),
            !old(self).spec_has(id) ==> *final(self) == *old(self),
            forall|x: OrderId|
                final(self).spec_has(x) <==> (old(self).spec_has(x) && x != id),
            forall|x: OrderId|
                final(self).spec_has(x) ==> final(self).spec_loc(x) == old(self).spec_loc(x),
    {
        let n = self.entries.len();
        let mut i: usize = 0;
        while i < n
            invariant
                n == self.entries@.len(),
                i <= n,
                *self == *old(self),
                old(self).wf(),
                forall|j: int| 0 <= j < i ==> self.entries@[j].0 != id,
            decreases n - i,
        {
            if self.entries[i].0 == id {
                proof {
                    let s0 = self.entries@;
                    assert(s0[i as int].0 == id);
                    assert(self.spec_has(id));
                    let k = self.spec_idx(id);
                    assert(0 <= k < s0.len() && s0[k].0 == id);
                    assert(k == i as int) by {
                        if k < i as int {
                            assert(s0[k].0 != s0[i as int].0);
                        }
                        if k > i as int {
                            assert(s0[i as int].0 != s0[k].0);
                        }
                    }
                }
                self.entries.remove(i);
                proof {
                    let s0 = old(self).entries@;
                    let s = self.entries@;
                    assert(s =~= s0.remove(i as int));
                    assert forall|a: int, b: int| 0 <= a < b < s.len() implies s[a].0 != s[b].0 by {
                        let a0 = if a < i as int {
                            a
                        } else {
                            a + 1
                        };
                        let b0 = if b < i as int {
                            b
                        } else {
                            b + 1
                        };
                        assert(s[a] == s0[a0]);
                        assert(s[b] == s0[b0]);
                    }
                    assert forall|x: OrderId| final(self).spec_has(x) implies (
                        old(self).spec_has(x) && x != id
                    ) by {
                        let k = choose|k: int| 0 <= k < s.len() && s[k].0 == x;
                        let k0 = if k < i as int {
                            k
                        } else {
                            k + 1
                        };
                        assert(s0[k0].0 == x);
                        if x == id {
                            if k0 < i as int {
                                assert(s0[k0].0 != s0[i as int].0);
                            }
                            if k0 > i as int {
                                assert(s0[i as int].0 != s0[k0].0);
                            }
                        }
                    }
                    assert forall|x: OrderId| (old(self).spec_has(x) && x != id) implies
                        final(self).spec_has(x) by {
                        let k0 = choose|k: int| 0 <= k < s0.len() && s0[k].0 == x;
                        if k0 < i as int {
                            assert(s[k0].0 == x);
                        } else {
                            assert(k0 != i as int);
                            assert(s[k0 - 1] == s0[k0]);
                        }
                    }
                    assert forall|x: OrderId| final(self).spec_has(x) implies #[trigger]
                        final(self).spec_loc(x) == old(self).spec_loc(x) by {
                        let k = final(self).spec_idx(x);
                        assert(0 <= k < s.len() && s[k].0 == x);
                        let k0 = if k < i as int {
                            k
                        } else {
                            k + 1
                        };
                        assert(s[k] == s0[k0]);
                        let m0 = old(self).spec_idx(x);
                        assert(0 <= m0 < s0.len() && s0[m0].0 == x);
                        assert(m0 == k0) by {
                            if m0 < k0 {
                                assert(s0[m0].0 != s0[k0].0);
                            }
                            if k0 < m0 {
                                assert(s0[k0].0 != s0[m0].0);
                            }
                        }
                    }
                }
                return true;
            }
            i = i + 1;
        }
        proof {
            if self.spec_has(id) {
                let k = self.spec_idx(id);
                assert(0 <= k < self.entries@.len() && self.entries@[k].0 == id);
                assert(self.entries@[k].0 != id);
            }
        }
        false
    }
}

} // verus!

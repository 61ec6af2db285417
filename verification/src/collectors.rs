//! Latency, throughput, and resource collectors, over nanosecond readings.

use vstd::prelude::*;
use vstd::multiset::Multiset;
use vstd::seq_lib::group_to_multiset_ensures;

use crate::time::wall_clock_nanos;

verus! {

/// Total of a sequence of samples.
pub open spec fn sum_samples(s: Seq<u64>) -> int
    decreases s.len(),
{
    if s.len() == 0 {
        0
    } else {
        s[0] + sum_samples(s.drop_first())
    }
}

/// Sort samples ascending; the result holds exactly the same samples.
fn sort_ascending(v: Vec<u64>) -> (r: Vec<u64>)
    ensures
        r@.len() == v@.len(),
        r@.to_multiset() == v@.to_multiset(),
        forall|i: int, j: int| 0 <= i <= j < r@.len() ==> r@[i] <= r@[j],
{
    broadcast use group_to_multiset_ensures;

    let mut src = v;
    let mut out: Vec<u64> = Vec::new();
    proof {
        assert(out@.to_multiset().add(src@.to_multiset()) =~= v@.to_multiset());
    }
    while src.len() > 0
        invariant
            out@.to_multiset().add(src@.to_multiset()) == v@.to_multiset(),
            out@.len() + src@.len() == v@.len(),
            forall|i: int, j: int| 0 <= i <= j < out@.len() ==> out@[i] <= out@[j],
            forall|i: int, j: int|
                0 <= i < out@.len() && 0 <= j < src@.len() ==> out@[i] <= src@[j],
        decreases src@.len(),
    {
        broadcast use group_to_multiset_ensures;

        let n = src.len();
        let mut mi: usize = 0;
        let mut k: usize = 1;
        while k < n
            invariant
                n == src@.len(),
                mi < n,
                k <= n,
                forall|j: int| 0 <= j < k ==> src@[mi as int] <= src@[j],
            decreases n - k,
        {
            if src[k] < src[mi] {
                mi = k;
            }
            k = k + 1;
        }
        let ghost src0 = src@;
        let ghost out0 = out@;
        let x = src.remove(mi);
        out.push(x);
        proof {
            assert(src@ =~= src0.remove(mi as int));
            assert(out@ =~= out0.push(x));
            assert(src0.to_multiset().count(x) >= 1) by {
                assert(src0.contains(x)) by {
                    assert(src0[mi as int] == x);
                }
            }
            assert(out@.to_multiset().add(src@.to_multiset()) =~= v@.to_multiset());
            assert forall|i: int, j: int|
                0 <= i < out@.len() && 0 <= j < src@.len() implies out@[i] <= src@[j] by {
                let j0 = if j < mi as int {
                    j
                } else {
                    j + 1
                };
                assert(src@[j] == src0[j0]);
                if i < out0.len() {
                    assert(out@[i] == out0[i]);
                } else {
                    assert(out@[i] == x);
                    assert(src0[mi as int] <= src0[j0]);
                }
            }
            assert forall|i: int, j: int|
                0 <= i <= j < out@.len() implies out@[i] <= out@[j] by {
                if j == out0.len() {
                    if i < j {
                        assert(out@[i] == out0[i]);
                        assert(out0[i] <= src0[mi as int]);
                    }
                } else {
                    assert(out@[i] == out0[i]);
                    assert(out@[j] == out0[j]);
                }
            }
        }
    }
    proof {
        assert(src@.to_multiset() =~= Multiset::<u64>::empty());
        assert(out@.to_multiset().add(Multiset::<u64>::empty()) =~= out@.to_multiset());
    }
    out
}

/// Aggregated latency statistics, in nanoseconds.
#[derive(Debug, Clone, Copy, PartialEq, Eq, Structural)]
pub struct LatencyStatistics {
    pub count: u64,
    pub min: u64,
    pub max: u64,
    pub mean: u64,
    pub p50: u64,
    pub p95: u64,
    pub p99: u64,
    pub p999: u64,
}

impl LatencyStatistics {
    /// All-zero statistics for an empty sample set.
    pub open spec fn spec_zero() -> LatencyStatistics {
        LatencyStatistics { count: 0, min: 0, max: 0, mean: 0, p50: 0, p95: 0, p99: 0, p999: 0 }
    }
}

/// Collects latency samples and aggregates them per collection interval.
#[derive(Debug)]
pub struct LatencyCollector {
    /// Latency samples since the last collection, in nanoseconds.
    pub samples: Vec<u64>,
    /// Clock reading at the last collection.
    pub last_collection: u64,
    /// Nanoseconds between collections.
    pub collection_interval: u64,
}

impl LatencyCollector {
    /// A collector that aggregates every `collection_interval` nanoseconds.
    pub fn new(collection_interval: u64) -> (r: LatencyCollector)
        ensures
            r.samples@.len() == 0,
            r.collection_interval == collection_interval,
    {
        LatencyCollector {
            samples: Vec::new(),
            last_collection: wall_clock_nanos(),
            collection_interval,
        }
    }

    /// Record one latency sample.
    pub fn record(&mut self, latency: u64)
        ensures
            final(self).samples@ == old(self).samples@.push(latency),
            final(self).last_collection == old(self).last_collection,
            final(self).collection_interval == old(self).collection_interval,
    {
        self.samples.push(latency);
    }

    /// If the collection interval has passed, aggregate and reset the
    /// samples; otherwise leave everything as it is.
    pub fn collect(&mut self) -> (r: Option<LatencyStatistics>)
        ensures
            match r {
                Some(stats) => {
                    &&& final(self).samples@.len() == 0
                    &&& stats.count == old(self).samples@.len()
                    &&& (old(self).samples@.len() > 0 ==> old(self).samples@.contains(stats.min)
                        && old(self).samples@.contains(stats.max))
                    &&& forall|i: int|
                        0 <= i < old(self).samples@.len() ==> stats.min <= #[trigger] old(
                            self,
                        ).samples@[i] <= stats.max
                    &&& (old(self).samples@.len() == 0 ==> stats
                        == LatencyStatistics::spec_zero())
                },
                None => *final(self) == *old(self),
            },
            final(self).collection_interval == old(self).collection_interval,
    {
        let now = wall_clock_nanos();
        let elapsed = if now >= self.last_collection {
            now - self.last_collection
        } else {
            0
        };
        if elapsed >= self.collection_interval {
            let stats = self.calculate_stats();
            self.samples.clear();
            self.last_collection = now;
            Some(stats)
        } else {
            None
        }
    }

    /// Aggregate the current samples: count, bounds, mean, and percentiles
    /// read out of the sorted samples.
    #[verifier::rlimit(50)]
    pub fn calculate_stats(&self) -> (stats: LatencyStatistics)
        ensures
            stats.count == self.samples@.len(),
            self.samples@.len() == 0 ==> stats == LatencyStatistics::spec_zero(),
            self.samples@.len() > 0 ==> self.samples@.contains(stats.min)
                && self.samples@.contains(stats.max),
            forall|i: int|
                0 <= i < self.samples@.len() ==> stats.min <= #[trigger] self.samples@[i]
                    <= stats.max,
    {
        broadcast use group_to_multiset_ensures;

        if self.samples.len() == 0 {
            return LatencyStatistics {
                count: 0,
                min: 0,
                max: 0,
                mean: 0,
                p50: 0,
                p95: 0,
                p99: 0,
                p999: 0,
            };
        }
        let sorted = sort_ascending(self.samples.clone());
        let len = sorted.len();
        proof {
            assert(self.samples@.to_multiset() == sorted@.to_multiset());
            assert forall|i: int| 0 <= i < sorted@.len() implies self.samples@.contains(
                #[trigger] sorted@[i],
            ) by {
                assert(sorted@.contains(sorted@[i]));
                assert(sorted@.to_multiset().count(sorted@[i]) > 0);
                assert(self.samples@.to_multiset().count(sorted@[i]) > 0);
            }
            assert forall|i: int| 0 <= i < self.samples@.len() implies sorted@.contains(
                #[trigger] self.samples@[i],
            ) by {
                assert(self.samples@.contains(self.samples@[i]));
                assert(self.samples@.to_multiset().count(self.samples@[i]) > 0);
                assert(sorted@.to_multiset().count(self.samples@[i]) > 0);
            }
        }
        let min = sorted[0];
        let max = sorted[len - 1];
        // a total over u64 samples fits in 128 bits
        let mut total: u128 = 0;
        let mut i: usize = 0;
        while i < len
            invariant
                len == sorted@.len(),
                i <= len,
                total <= (i as int) * (u64::MAX as int),
            decreases len - i,
        {
            proof {
                assert((i as int) * (u64::MAX as int) + (u64::MAX as int) == ((i + 1) as int) * (
                u64::MAX as int)) by (nonlinear_arith);
                assert(((i + 1) as int) * (u64::MAX as int) <= (usize::MAX as int) * (
                u64::MAX as int)) by (nonlinear_arith)
                    requires
                        0 <= i + 1 <= usize::MAX,
                ;
                assert((usize::MAX as int) * (u64::MAX as int) < u128::MAX);
            }
            total = total + (sorted[i] as u128);
            i = i + 1;
        }
        let mean = #[verifier::truncate] ((total / (len as u128)) as u64);
        let p50 = sorted[len / 2];
        let p95 = sorted[Self::percentile_index(len, 95)];
        let p99 = sorted[Self::percentile_index(len, 99)];
        let p999 = sorted[Self::percentile_index(len, 999) ];
        proof {
            assert forall|i2: int| 0 <= i2 < self.samples@.len() implies min <= #[trigger] self
                .samples@[i2] <= max by {
                assert(sorted@.contains(self.samples@[i2]));
                let k = choose|k: int| 0 <= k < sorted@.len() && sorted@[k] == self.samples@[i2];
                assert(sorted@[0] <= sorted@[k]);
                assert(sorted@[k] <= sorted@[len - 1]);
            }
            assert(self.samples@.contains(min));
            assert(self.samples@.contains(max));
        }
        LatencyStatistics { count: len as u64, min, max, mean, p50, p95, p99, p999 }
    }

    /// The index of the q-per-mille (for 999) or q-per-cent percentile.
    fn percentile_index(len: usize, q: usize) -> (r: usize)
        requires
            len > 0,
            q == 95 || q == 99 || q == 999,
        ensures
            r < len,
    {
        let scale: usize = if q == 999 {
            1000
        } else {
            100
        };
        let idx = (((len as u128) * (q as u128)) / (scale as u128)) as usize;
        proof {
            assert((len as int) * (q as int) < (len as int) * (scale as int)) by (nonlinear_arith)
                requires
                    len > 0,
                    0 < q < scale,
            ;
            assert(((len as int) * (q as int)) / (scale as int) < len as int) by {
                assert((len as int) * (scale as int) / (scale as int) == len as int)
                    by (nonlinear_arith)
                    requires
                        scale > 0,
                ;
                assert(((len as int) * (q as int)) / (scale as int) <= ((len as int) * (
                scale as int) - 1) / (scale as int)) by (nonlinear_arith)
                    requires
                        (len as int) * (q as int) <= (len as int) * (scale as int) - 1,
                        scale > 0,
                ;
                assert(((len as int) * (scale as int) - 1) / (scale as int) < len as int)
                    by (nonlinear_arith)
                    requires
                        scale > 0,
                        len > 0,
                ;
            }
        }
        idx
    }
}

/// Counts operations between collections.
#[derive(Debug)]
pub struct ThroughputCollector {
    /// Total operations counted so far.
    pub counter: u64,
    /// Clock reading at the last collection.
    pub last_collection: u64,
    /// Nanoseconds between collections.
    pub collection_interval: u64,
    /// Counter value at the last collection.
    pub last_count: u64,
}

/// Operations counted over one collection interval.
#[derive(Debug, Clone, Copy, PartialEq, Eq, Structural)]
pub struct ThroughputStatistics {
    /// Operations since the previous collection.
    pub operations: u64,
    /// Total operations since creation.
    pub total: u64,
    /// Nanoseconds the interval actually lasted.
    pub interval_nanos: u64,
}

impl ThroughputCollector {
    /// A collector that aggregates every `collection_interval` nanoseconds.
    pub fn new(collection_interval: u64) -> (r: ThroughputCollector)
        ensures
            r.counter == 0,
            r.last_count == 0,
            r.collection_interval == collection_interval,
    {
        ThroughputCollector {
            counter: 0,
            last_collection: wall_clock_nanos(),
            collection_interval,
            last_count: 0,
        }
    }

    /// Count one operation.
    pub fn increment(&mut self)
        ensures
            final(self).counter == vstd::wrapping::u64_specs::wrapping_add(old(self).counter, 1),
            final(self).last_count == old(self).last_count,
            final(self).collection_interval == old(self).collection_interval,
    {
        self.counter = self.counter.wrapping_add(1);
    }

    /// Count several operations at once.
    pub fn add(&mut self, value: u64)
        ensures
            final(self).counter == vstd::wrapping::u64_specs::wrapping_add(
                old(self).counter,
                value,
            ),
            final(self).last_count == old(self).last_count,
            final(self).collection_interval == old(self).collection_interval,
    {
        self.counter = self.counter.wrapping_add(value);
    }

    /// If the collection interval has passed, report the operations since
    /// the previous collection and start a new interval.
    pub fn collect(&mut self) -> (r: Option<ThroughputStatistics>)
        ensures
            match r {
                Some(stats) => {
                    &&& stats.total == old(self).counter
                    &&& stats.operations == vstd::wrapping::u64_specs::wrapping_sub(
                        old(self).counter,
                        old(self).last_count,
                    )
                    &&& final(self).last_count == old(self).counter
                    &&& final(self).counter == old(self).counter
                },
                None => *final(self) == *old(self),
            },
            final(self).collection_interval == old(self).collection_interval,
    {
        let now = wall_clock_nanos();
        let elapsed = if now >= self.last_collection {
            now - self.last_collection
        } else {
            0
        };
        if elapsed >= self.collection_interval {
            let current = self.counter;
            let operations = current.wrapping_sub(self.last_count);
            self.last_collection = now;
            self.last_count = current;
            Some(ThroughputStatistics { operations, total: current, interval_nanos: elapsed })
        } else {
            None
        }
    }

    /// The total count so far.
    pub fn total(&self) -> (r: u64)
        ensures
            r == self.counter,
    {
        self.counter
    }
}

/// System resource statistics; this crate reports placeholder values.
#[derive(Debug, Clone, Copy, PartialEq, Eq, Structural)]
pub struct ResourceStatistics {
    pub memory_usage_bytes: u64,
    pub memory_available_bytes: u64,
    pub open_file_descriptors: u32,
    pub network_connections: u32,
}

/// Collects system resource statistics per interval.
#[derive(Debug)]
pub struct ResourceCollector {
    /// Clock reading at the last collection.
    pub last_collection: u64,
    /// Nanoseconds between collections.
    pub collection_interval: u64,
}

impl ResourceCollector {
    /// A collector that reports every `collection_interval` nanoseconds.
    pub fn new(collection_interval: u64) -> (r: ResourceCollector)
        ensures
            r.collection_interval == collection_interval,
    {
        ResourceCollector { last_collection: wall_clock_nanos(), collection_interval }
    }

    /// If the collection interval has passed, report resource statistics.
    pub fn collect(&mut self) -> (r: Option<ResourceStatistics>)
        ensures
            final(self).collection_interval == old(self).collection_interval,
            match r {
                Some(stats) => stats == (ResourceStatistics {
                    memory_usage_bytes: 0,
                    memory_available_bytes: 0,
                    open_file_descriptors: 0,
                    network_connections: 0,
                }),
                None => *final(self) == *old(self),
            },
    {
        let now = wall_clock_nanos();
        let elapsed = if now >= self.last_collection {
            now - self.last_collection
        } else {
            0
        };
        if elapsed >= self.collection_interval {
            self.last_collection = now;
            Some(
                ResourceStatistics {
                    memory_usage_bytes: 0,
                    memory_available_bytes: 0,
                    open_file_descriptors: 0,
                    network_connections: 0,
                },
            )
        } else {
            None
        }
    }
}

} // verus!

//! Latency statistics over a window of the most recent samples, a balancer
//! that hands out servers in turn, and a collector of writes into batches.
//!
//! A latency is a number of nanoseconds.

use vstd::prelude::*;
use vstd::relations::{sorted_by, total_ordering};
use vstd::seq_lib::{lemma_sorted_unique, to_multiset_build, to_multiset_insert};
use std::collections::VecDeque;

verus! {

/// The samples that a tracker keeps.
pub const WINDOW: usize = 1000;

/// The order of latencies.
pub open spec fn leq() -> spec_fn(u64, u64) -> bool {
    |a: u64, b: u64| a <= b
}

/// The samples in ascending order.
pub open spec fn ascending(samples: Seq<u64>) -> Seq<u64> {
    samples.sort_by(leq())
}

/// The sum of the samples.
pub open spec fn total(samples: Seq<u64>) -> nat
    decreases samples.len(),
{
    if samples.len() == 0 {
        0
    } else {
        total(samples.drop_last()) + samples.last() as nat
    }
}

/// The sum of the samples is no more than their number times the
/// largest latency.
pub proof fn lemma_total_bound(samples: Seq<u64>)
    ensures
        total(samples) <= samples.len() * u64::MAX,
    decreases samples.len(),
{
    if samples.len() > 0 {
        lemma_total_bound(samples.drop_last());
        assert((samples.len() - 1) * u64::MAX + u64::MAX == samples.len() * u64::MAX)
            by (nonlinear_arith);
    }
}

/// What a window of samples shows.
#[derive(Debug, Clone, Copy, PartialEq, Eq, Structural)]
pub struct LatencyStats {
    pub count: u64,
    pub min: u64,
    pub max: u64,
    pub avg: u64,
    pub p50: u64,
    pub p95: u64,
    pub p99: u64,
}

impl Default for LatencyStats {
    fn default() -> (stats: Self)
        ensures
            stats == (LatencyStats { count: 0, min: 0, max: 0, avg: 0, p50: 0, p95: 0, p99: 0 }),
    {
        LatencyStats { count: 0, min: 0, max: 0, avg: 0, p50: 0, p95: 0, p99: 0 }
    }
}

/// The statistics of a window: the count, the least and the greatest
/// sample, the mean rounded down, and the samples that stand at 50, 95 and
/// 99 hundredths of the ascending order. An empty window shows zeros.
pub open spec fn stats_of(samples: Seq<u64>) -> LatencyStats {
    if samples.len() == 0 {
        LatencyStats { count: 0, min: 0, max: 0, avg: 0, p50: 0, p95: 0, p99: 0 }
    } else {
        let sorted = ascending(samples);
        let n = samples.len() as int;
        LatencyStats {
            count: n as u64,
            min: sorted[0],
            max: sorted[n - 1],
            avg: (total(samples) / (n as nat)) as u64,
            p50: sorted[n * 50 / 100],
            p95: sorted[n * 95 / 100],
            p99: sorted[n * 99 / 100],
        }
    }
}

/// Sorts the samples in ascending order.
pub fn sort_samples(samples: &Vec<u64>) -> (sorted: Vec<u64>)
    ensures
        sorted@ == ascending(samples@),
        sorted@.len() == samples@.len(),
{
    let mut sorted: Vec<u64> = Vec::new();
    let mut i: usize = 0;
    proof {
        assert(samples@.take(0) =~= Seq::<u64>::empty());
        assert(sorted@.to_multiset() =~= samples@.take(0).to_multiset());
    }
    while i < samples.len()
        invariant
            i <= samples.len(),
            sorted@.len() == i,
            sorted_by(sorted@, leq()),
            sorted@.to_multiset() == samples@.take(i as int).to_multiset(),
        decreases samples.len() - i,
    {
        let x = samples[i];
        let mut at: usize = 0;
        while at < sorted.len() && sorted[at] <= x
            invariant
                at <= sorted.len(),
                forall|j: int| 0 <= j < at ==> sorted@[j] <= x,
            decreases sorted.len() - at,
        {
            at += 1;
        }
        let ghost before = sorted@;
        sorted.insert(at, x);
        proof {
            to_multiset_insert(before, at as int, x);
            to_multiset_build(samples@.take(i as int), x);
            assert(samples@.take(i as int).push(x) =~= samples@.take(i + 1));
            assert forall|a: int, b: int| 0 <= a < b < sorted@.len() implies (leq())(
                sorted@[a],
                sorted@[b],
            ) by {
                if b < at {
                    assert((leq())(before[a], before[b]));
                } else if b == at {
                } else if a < at {
                    assert((leq())(before[a], before[b - 1]));
                    assert(at < before.len() ==> before[at as int] > x);
                    assert((leq())(before[at as int], before[b - 1]) || at == b - 1);
                } else if a == at {
                    assert((leq())(before[at as int], before[b - 1]) || at == b - 1);
                } else {
                    assert((leq())(before[a - 1], before[b - 1]));
                }
            }
        }
        i += 1;
    }
    proof {
        assert(samples@.take(i as int) =~= samples@);
        samples@.lemma_sort_by_ensures(leq());
        assert(total_ordering(leq()));
        lemma_sorted_unique(sorted@, ascending(samples@), leq());
    }
    sorted
}

/// Keeps the most recent latencies, `WINDOW` at most.
#[derive(Debug)]
pub struct LatencyTracker {
    samples: VecDeque<u64>,
    max_samples: usize,
}

impl LatencyTracker {
    /// The samples held, oldest first.
    pub closed spec fn held(&self) -> Seq<u64> {
        self.samples@
    }

    /// The window holds no more than `WINDOW` samples.
    pub closed spec fn wf(&self) -> bool {
        self.max_samples == WINDOW && self.samples@.len() <= WINDOW
    }

    /// A tracker without samples.
    pub fn new() -> (tracker: Self)
        ensures
            tracker.wf(),
            tracker.held().len() == 0,
    {
        LatencyTracker { samples: VecDeque::with_capacity(1000), max_samples: 1000 }
    }

    /// Takes a sample; the oldest makes room if the window is full.
    pub fn record(&mut self, latency: u64)
        requires
            old(self).wf(),
        ensures
            final(self).wf(),
            final(self).held() == if old(self).held().len() >= WINDOW {
                old(self).held().skip(1).push(latency)
            } else {
                old(self).held().push(latency)
            },
    {
        if self.samples.len() >= self.max_samples {
            let _ = self.samples.pop_front();
        }
        self.samples.push_back(latency);
    }

    /// The statistics of the window.
    pub fn get_stats(&self) -> (stats: LatencyStats)
        requires
            self.wf(),
        ensures
            stats == stats_of(self.held()),
    {
        if self.samples.len() == 0 {
            return LatencyStats::default();
        }
        let ghost held = self.samples@;
        let mut copy: Vec<u64> = Vec::new();
        let mut sum: u128 = 0;
        let mut i: usize = 0;
        proof {
            assert(held.take(0) =~= Seq::<u64>::empty());
        }
        while i < self.samples.len()
            invariant
                i <= self.samples.len(),
                held == self.samples@,
                held.len() <= WINDOW,
                copy@ == held.take(i as int),
                sum == total(held.take(i as int)),
            decreases self.samples.len() - i,
        {
            let x = self.samples[i];
            proof {
                assert(held.take(i + 1).drop_last() =~= held.take(i as int));
                assert(held.take(i + 1).last() == x);
                lemma_total_bound(held.take(i as int));
                assert(i * u64::MAX <= 1000 * u64::MAX) by (nonlinear_arith)
                    requires
                        i <= 1000,
                ;
            }
            copy.push(x);
            sum = sum + x as u128;
            proof {
                assert(copy@ =~= held.take(i + 1));
            }
            i += 1;
        }
        proof {
            assert(held.take(i as int) =~= held);
            lemma_total_bound(held);
        }
        let sorted = sort_samples(&copy);
        let len = sorted.len();
        let avg = sum / (len as u128);
        proof {
            assert(len * u64::MAX / (len as int) == u64::MAX) by (nonlinear_arith)
                requires
                    len > 0,
            ;
            assert(total(held) / (len as nat) <= u64::MAX) by (nonlinear_arith)
                requires
                    len > 0,
                    total(held) <= len * u64::MAX,
            ;
        }
        LatencyStats {
            count: len as u64,
            min: sorted[0],
            max: sorted[len - 1],
            avg: avg as u64,
            p50: sorted[len * 50 / 100],
            p95: sorted[len * 95 / 100],
            p99: sorted[len * 99 / 100],
        }
    }
}

/// The places of the servers that are healthy, in order.
pub open spec fn healthy_places(health: Seq<bool>) -> Seq<int>
    decreases health.len(),
{
    if health.len() == 0 {
        Seq::empty()
    } else if health.last() {
        healthy_places(health.drop_last()).push(health.len() - 1)
    } else {
        healthy_places(health.drop_last())
    }
}

pub proof fn lemma_healthy_places(health: Seq<bool>)
    ensures
        healthy_places(health).len() <= health.len(),
        forall|j: int|
            0 <= j < healthy_places(health).len() ==> 0 <= (#[trigger] healthy_places(health)[j])
                < health.len() && health[healthy_places(health)[j]],
    decreases health.len(),
{
    if health.len() > 0 {
        lemma_healthy_places(health.drop_last());
    }
}

/// The names held by a vector of strings.
pub open spec fn names(servers: Seq<String>) -> Seq<Seq<char>> {
    servers.map_values(|s: String| s@)
}

/// The first place at which `name` stands among the names, if it does.
pub open spec fn first_place(all: Seq<Seq<char>>, name: Seq<char>) -> Option<int> {
    if exists|i: int| 0 <= i < all.len() && all[i] == name {
        Some(choose|i: int| 0 <= i < all.len() && all[i] == name && forall|h: int| 0 <= h < i ==> all[h] != name)
    } else {
        None
    }
}

/// Hands out servers in turn, passing over those marked unhealthy.
#[derive(Debug)]
pub struct LoadBalancer {
    servers: Vec<String>,
    current_index: usize,
    health_status: Vec<bool>,
}

impl LoadBalancer {
    /// The names of the servers.
    pub closed spec fn pool(&self) -> Seq<Seq<char>> {
        names(self.servers@)
    }

    /// Which servers are healthy, by place.
    pub closed spec fn health(&self) -> Seq<bool> {
        self.health_status@
    }

    /// The number of servers handed out so far, counted round the largest
    /// number back to zero.
    pub closed spec fn turn(&self) -> usize {
        self.current_index
    }

    /// Every server has its health flag.
    pub open spec fn wf(&self) -> bool {
        self.pool().len() == self.health().len()
    }

    /// A balancer over the servers, all healthy.
    pub fn new(servers: Vec<String>) -> (balancer: Self)
        ensures
            balancer.wf(),
            balancer.pool() == names(servers@),
            balancer.turn() == 0,
            forall|i: int| 0 <= i < balancer.health().len() ==> balancer.health()[i],
    {
        let mut health_status: Vec<bool> = Vec::new();
        while health_status.len() < servers.len()
            invariant
                health_status@.len() <= servers@.len(),
                forall|i: int| 0 <= i < health_status@.len() ==> health_status@[i],
            decreases servers.len() - health_status.len(),
        {
            health_status.push(true);
        }
        LoadBalancer { servers, current_index: 0, health_status }
    }

    /// The next server in turn among the healthy ones, or `None` if no
    /// server is healthy. Each call that finds a server counts as a turn.
    pub fn get_next_server(&mut self) -> (server: Option<String>)
        requires
            old(self).wf(),
        ensures
            final(self).wf(),
            final(self).pool() == old(self).pool(),
            final(self).health() == old(self).health(),
            match server {
                None => healthy_places(old(self).health()).len() == 0 && final(self).turn() == old(
                    self,
                ).turn(),
                Some(name) => {
                    let healthy = healthy_places(old(self).health());
                    &&& healthy.len() > 0
                    &&& name@ == old(self).pool()[healthy[old(self).turn() as int % (
                    healthy.len() as int)]]
                    &&& final(self).turn() == if old(self).turn() == usize::MAX {
                        0
                    } else {
                        (old(self).turn() + 1) as usize
                    }
                },
            },
    {
        let ghost health = self.health_status@;
        let mut healthy: Vec<usize> = Vec::new();
        let mut i: usize = 0;
        proof {
            assert(health.take(0) =~= Seq::<bool>::empty());
            lemma_healthy_places(health);
        }
        while i < self.health_status.len()
            invariant
                i <= self.health_status.len(),
                health == self.health_status@,
                healthy@.len() == healthy_places(health.take(i as int)).len(),
                forall|j: int|
                    0 <= j < healthy@.len() ==> healthy@[j] as int == healthy_places(
                        health.take(i as int),
                    )[j],
            decreases self.health_status.len() - i,
        {
            proof {
                assert(health.take(i + 1).drop_last() =~= health.take(i as int));
                assert(health.take(i + 1).last() == health[i as int]);
            }
            if self.health_status[i] {
                healthy.push(i);
            }
            i += 1;
        }
        proof {
            assert(health.take(i as int) =~= health);
        }
        if healthy.len() == 0 {
            return None;
        }
        let current = self.current_index;
        self.current_index = if current == usize::MAX {
            0
        } else {
            current + 1
        };
        let index = current % healthy.len();
        let place = healthy[index];
        Some(self.servers[place].clone())
    }

    /// The first place at which a server of the given name stands.
    fn position(&self, server: &str) -> (place: Option<usize>)
        ensures
            match place {
                Some(i) => i < self.pool().len() && first_place(self.pool(), server@) == Some(
                    i as int,
                ),
                None => first_place(self.pool(), server@) is None,
            },
    {
        let wanted = server.to_owned();
        let mut i: usize = 0;
        while i < self.servers.len()
            invariant
                i <= self.servers.len(),
                wanted@ == server@,
                forall|h: int| 0 <= h < i ==> self.pool()[h] != server@,
            decreases self.servers.len() - i,
        {
            assert(self.pool()[i as int] == self.servers@[i as int]@);
            if self.servers[i] == wanted {
                proof {
                    let all = self.pool();
                    let found = choose|k: int|
                        0 <= k < all.len() && all[k] == server@ && forall|h: int|
                            0 <= h < k ==> all[h] != server@;
                    assert(0 <= i < all.len() && all[i as int] == server@ && forall|h: int|
                        0 <= h < i ==> all[h] != server@);
                    if found < i {
                    } else if i < found {
                    }
                }
                return Some(i);
            }
            i += 1;
        }
        None
    }

    /// Sets the health of the first server of the given name; a name that
    /// no server has changes nothing.
    fn mark(&mut self, server: &str, healthy: bool)
        requires
            old(self).wf(),
        ensures
            final(self).wf(),
            final(self).pool() == old(self).pool(),
            final(self).turn() == old(self).turn(),
            final(self).health() == match first_place(old(self).pool(), server@) {
                Some(i) => old(self).health().update(i, healthy),
                None => old(self).health(),
            },
    {
        match self.position(server) {
            Some(index) => {
                self.health_status.set(index, healthy);
            },
            None => {},
        }
    }

    /// Marks the first server of the given name as unhealthy.
    pub fn mark_server_unhealthy(&mut self, server: &str)
        requires
            old(self).wf(),
        ensures
            final(self).wf(),
            final(self).pool() == old(self).pool(),
            final(self).turn() == old(self).turn(),
            final(self).health() == match first_place(old(self).pool(), server@) {
                Some(i) => old(self).health().update(i, false),
                None => old(self).health(),
            },
    {
        self.mark(server, false);
    }

    /// Marks the first server of the given name as healthy.
    pub fn mark_server_healthy(&mut self, server: &str)
        requires
            old(self).wf(),
        ensures
            final(self).wf(),
            final(self).pool() == old(self).pool(),
            final(self).turn() == old(self).turn(),
            final(self).health() == match first_place(old(self).pool(), server@) {
                Some(i) => old(self).health().update(i, true),
                None => old(self).health(),
            },
    {
        self.mark(server, true);
    }
}

/// Collects writes until there are enough of them, or they have waited long
/// enough, to go out as one batch.
#[derive(Debug)]
pub struct BatchOptimizer {
    pending_writes: Vec<(String, Vec<u8>)>,
    batch_size: usize,
    batch_timeout_ms: u64,
}

impl BatchOptimizer {
    /// The writes that wait, oldest first.
    pub closed spec fn waiting(&self) -> Seq<(String, Vec<u8>)> {
        self.pending_writes@
    }

    /// The number of writes at which a batch goes out.
    pub closed spec fn size(&self) -> usize {
        self.batch_size
    }

    /// The time in milliseconds after which waiting writes go out.
    pub closed spec fn timeout_ms(&self) -> u64 {
        self.batch_timeout_ms
    }

    /// An optimizer without waiting writes.
    pub fn new(batch_size: usize, batch_timeout_ms: u64) -> (optimizer: Self)
        ensures
            optimizer.waiting().len() == 0,
            optimizer.size() == batch_size,
            optimizer.timeout_ms() == batch_timeout_ms,
    {
        BatchOptimizer { pending_writes: Vec::new(), batch_size, batch_timeout_ms }
    }

    /// Takes a write. If that makes a full batch, all waiting writes go out,
    /// oldest first, and the caller starts its clock anew.
    pub fn add_write(&mut self, key: String, value: Vec<u8>) -> (batch: Option<
        Vec<(String, Vec<u8>)>,
    >)
        ensures
            final(self).size() == old(self).size(),
            final(self).timeout_ms() == old(self).timeout_ms(),
            match batch {
                Some(b) => {
                    &&& old(self).waiting().len() + 1 >= old(self).size()
                    &&& b@ == old(self).waiting().push((key, value))
                    &&& final(self).waiting().len() == 0
                },
                None => {
                    &&& old(self).waiting().len() + 1 < old(self).size()
                    &&& final(self).waiting() == old(self).waiting().push((key, value))
                },
            },
    {
        self.pending_writes.push((key, value));
        if self.pending_writes.len() >= self.batch_size {
            let mut batch: Vec<(String, Vec<u8>)> = Vec::new();
            core::mem::swap(&mut self.pending_writes, &mut batch);
            Some(batch)
        } else {
            None
        }
    }

    /// Lets the waiting writes go out if they have waited long enough:
    /// `elapsed_ms` is the time since the last batch went out. Without
    /// waiting writes nothing goes out.
    pub fn flush_if_needed(&mut self, elapsed_ms: u64) -> (batch: Option<Vec<(String, Vec<u8>)>>)
        ensures
            final(self).size() == old(self).size(),
            final(self).timeout_ms() == old(self).timeout_ms(),
            match batch {
                Some(b) => {
                    &&& elapsed_ms >= old(self).timeout_ms()
                    &&& old(self).waiting().len() > 0
                    &&& b@ == old(self).waiting()
                    &&& final(self).waiting().len() == 0
                },
                None => {
                    &&& elapsed_ms < old(self).timeout_ms() || old(self).waiting().len() == 0
                    &&& final(self).waiting() == old(self).waiting()
                },
            },
    {
        if elapsed_ms >= self.batch_timeout_ms && self.pending_writes.len() > 0 {
            let mut batch: Vec<(String, Vec<u8>)> = Vec::new();
            core::mem::swap(&mut self.pending_writes, &mut batch);
            Some(batch)
        } else {
            None
        }
    }
}

} // verus!

//! Shards of routes with load counters, and a manager that picks shards, moves routes
//! between them and grows or shrinks their number.
use std::sync::Arc;
use std::time::{Duration, Instant};
use vstd::prelude::*;
use crate::text::{segments, strings_view, bump, bump_exec};
use crate::lockfree_shard::{unbump, unbump_exec};
use crate::cache_optimized::{no_wildcard, pairs_view, default_hash, default_hash_of, shard_for, shard_index_for_hash, is_param_segment};
use crate::route_radix_tree::{RouteRadixTree, lemma_listed_paths_removable, lemma_same_position_stored};
use crate::segment_tree::same_position;
use crate::cache::{instant_now, instant_elapsed, duration_as_nanos, duration_from_secs};

verus! {

/// `Instant` is `Copy`; its `clone` returns the same moment.
pub assume_specification[ <Instant as Clone>::clone ](i: &Instant) -> (r: Instant)
    ensures
        r == *i,
;

/// Load counters of a shard.
#[derive(Debug, Clone, Copy)]
pub struct ShardMetrics {
    /// Routes in the shard.
    pub route_count: usize,
    /// Reads and writes.
    pub total_access: usize,
    /// Reads.
    pub read_count: usize,
    /// Writes.
    pub write_count: usize,
    /// When the shard was last used.
    pub last_access: Option<Instant>,
    /// Running average latency of successful reads, in nanoseconds.
    pub avg_latency_ns: u64,
    /// Open connections.
    pub active_connections: usize,
}

impl Default for ShardMetrics {
    fn default() -> (r: Self)
        ensures
            r.route_count == 0 && r.total_access == 0 && r.read_count == 0 && r.write_count == 0
                && r.last_access is None && r.avg_latency_ns == 0 && r.active_connections == 0,
    {
        ShardMetrics { route_count: 0, total_access: 0, read_count: 0, write_count: 0, last_access: None,
            avg_latency_ns: 0, active_connections: 0 }
    }
}

/// The running average after a successful read of `latency` nanoseconds, when `total`
/// accesses (this one included) have been counted and the average was `avg`.
pub open spec fn next_latency(avg: u64, total: usize, latency: u64) -> u64 {
    ((avg * (total - 1) + latency) / total as int) as u64
}

/// Whether that average can be computed without overflowing `u64`.
pub open spec fn latency_fits(avg: u64, total: usize, latency: u64) -> bool {
    total >= 1 && avg * (total - 1) + latency <= u64::MAX
}

/// A shard: a radix tree of routes and its load counters.
pub struct DynamicShard<R> {
    inner: RouteRadixTree<R>,
    metrics: ShardMetrics,
    id: usize,
}

/// The routes found for the first `n` of `paths` (those a lookup finds), in order.
pub open spec fn found_routes<R>(tree: RouteRadixTree<R>, paths: Seq<Seq<char>>, n: int) -> Seq<(Seq<char>, Arc<R>)>
    decreases n,
{
    if n <= 0 {
        Seq::empty()
    } else {
        let prev = found_routes(tree, paths, n - 1);
        match tree.lookup(paths[n - 1]) {
            Some((r, _)) => prev.push((paths[n - 1], r)),
            None => prev,
        }
    }
}

impl<R> DynamicShard<R> {
    /// The shard's invariant.
    pub closed spec fn wf(&self) -> bool {
        self.inner.wf()
    }

    /// The shard's routes.
    pub closed spec fn tree(&self) -> RouteRadixTree<R> {
        self.inner
    }

    /// The shard's counters.
    pub closed spec fn counters(&self) -> ShardMetrics {
        self.metrics
    }

    /// The shard's id.
    pub closed spec fn shard_id(&self) -> usize {
        self.id
    }

    /// An empty shard with id `id`.
    pub fn new(id: usize) -> (r: Self)
        ensures
            r.wf(),
            r.shard_id() == id,
            forall|p: Seq<char>| #[trigger] r.tree().lookup(p) is None,
            forall|p: Seq<char>| #[trigger] r.tree().names_fit(p),
            r.tree().paths() == Seq::<Seq<char>>::empty(),
            r.counters().route_count == 0 && r.counters().total_access == 0 && r.counters().read_count == 0
                && r.counters().write_count == 0 && r.counters().last_access is None
                && r.counters().avg_latency_ns == 0 && r.counters().active_connections == 0,
    {
        DynamicShard { inner: RouteRadixTree::new(), metrics: ShardMetrics::default(), id }
    }

    /// The shard's id.
    pub fn id(&self) -> (r: usize)
        ensures
            r == self.shard_id(),
    {
        self.id
    }

    /// The number of routes counted into the shard.
    pub fn route_count(&self) -> (r: usize)
        ensures
            r == self.counters().route_count,
    {
        self.metrics.route_count
    }

    /// The shard's counters.
    pub fn metrics(&self) -> (r: &ShardMetrics)
        ensures
            *r == self.counters(),
    {
        &self.metrics
    }

    /// Stores `route` for `path`; counts the route when `path` found none before, counts a
    /// write and an access, and notes the time.
    pub fn insert(&mut self, path: &str, route: R)
        requires
            old(self).wf(),
            old(self).tree().lookup(path@) is None ==> old(self).counters().route_count < usize::MAX,
            old(self).counters().write_count < usize::MAX,
            old(self).counters().total_access < usize::MAX,
        ensures
            final(self).wf(),
            final(self).shard_id() == old(self).shard_id(),
            no_wildcard(segments(path@)) ==> (final(self).tree().lookup(path@) matches Some((x, _)) && *x == route),
            no_wildcard(segments(path@)) ==> (final(self).tree().removable(path@) matches Some(x) && *x == route),
            no_wildcard(segments(path@)) ==> forall|q: Seq<char>| !crate::segment_tree::matches_from(segments(path@), segments(q), 0)
                ==> #[trigger] final(self).tree().lookup(q) == old(self).tree().lookup(q),
            no_wildcard(segments(path@)) && old(self).tree().names_fit(path@) ==> forall|q: Seq<char>|
                crate::segment_tree::matches_from(segments(path@), segments(q), 0) && old(self).tree().lookup(q) is None
                ==> (#[trigger] final(self).tree().lookup(q) matches Some((x, ps)) && *x == route
                    && ps == crate::segment_tree::captures_from(segments(path@), segments(q), 0)),
            final(self).counters().route_count == old(self).counters().route_count
                + if old(self).tree().lookup(path@) is Some { 0int } else { 1int },
            final(self).counters().write_count == old(self).counters().write_count + 1,
            final(self).counters().total_access == old(self).counters().total_access + 1,
            final(self).counters().read_count == old(self).counters().read_count,
            final(self).counters().avg_latency_ns == old(self).counters().avg_latency_ns,
            final(self).counters().active_connections == old(self).counters().active_connections,
            final(self).counters().last_access is Some,
            forall|q: Seq<char>| same_position(segments(path@), segments(q), 0)
                ==> (#[trigger] final(self).tree().stored_route(q) matches Some(x) && *x == route),
            forall|q: Seq<char>| !same_position(segments(path@), segments(q), 0)
                ==> #[trigger] final(self).tree().stored_route(q) == old(self).tree().stored_route(q),
    {
        self.insert_arc(path, Arc::new(route));
    }

    /// Stores the shared `route` for `path`, counting as `insert` does.
    pub fn insert_arc(&mut self, path: &str, route: Arc<R>)
        requires
            old(self).wf(),
            old(self).tree().lookup(path@) is None ==> old(self).counters().route_count < usize::MAX,
            old(self).counters().write_count < usize::MAX,
            old(self).counters().total_access < usize::MAX,
        ensures
            final(self).wf(),
            final(self).shard_id() == old(self).shard_id(),
            no_wildcard(segments(path@)) ==> (final(self).tree().lookup(path@) matches Some((x, _)) && x == route),
            no_wildcard(segments(path@)) ==> final(self).tree().removable(path@) == Some(route),
            final(self).tree().stored_route(path@) == Some(route),
            forall|q: Seq<char>| old(self).tree().stored_route(q) is Some ==> #[trigger] final(self).tree().stored_route(q) is Some,
            forall|q: Seq<char>| #[trigger] final(self).tree().stored_route(q) == (
                if crate::segment_tree::same_position(segments(path@), segments(q), 0) { Some(route) }
                else { old(self).tree().stored_route(q) }),
            no_wildcard(segments(path@)) ==> forall|q: Seq<char>| !crate::segment_tree::matches_from(segments(path@), segments(q), 0)
                ==> #[trigger] final(self).tree().lookup(q) == old(self).tree().lookup(q),
            no_wildcard(segments(path@)) && old(self).tree().names_fit(path@) ==> forall|q: Seq<char>|
                crate::segment_tree::matches_from(segments(path@), segments(q), 0) && old(self).tree().lookup(q) is None
                ==> #[trigger] final(self).tree().lookup(q) == Some((route, crate::segment_tree::captures_from(segments(path@), segments(q), 0))),
            final(self).counters().route_count == old(self).counters().route_count
                + if old(self).tree().lookup(path@) is Some { 0int } else { 1int },
            final(self).counters().write_count == old(self).counters().write_count + 1,
            final(self).counters().total_access == old(self).counters().total_access + 1,
            final(self).counters().read_count == old(self).counters().read_count,
            final(self).counters().avg_latency_ns == old(self).counters().avg_latency_ns,
            final(self).counters().active_connections == old(self).counters().active_connections,
            final(self).counters().last_access is Some,
    {
        let existed = self.inner.contains(path);
        self.inner.insert_arc(path, route);
        proof {
            assert forall|q: Seq<char>| old(self).tree().stored_route(q) is Some
                implies #[trigger] self.inner.stored_route(q) is Some by {
                assert(self.inner.stored_route(q) == (
                    if crate::segment_tree::same_position(segments(path@), segments(q), 0) { Some(route) }
                    else { old(self).inner.stored_route(q) }));
            }
        }
        if !existed {
            self.metrics.route_count = self.metrics.route_count + 1;
        }
        self.metrics.write_count = self.metrics.write_count + 1;
        self.metrics.total_access = self.metrics.total_access + 1;
        self.metrics.last_access = Some(instant_now());
    }

    /// Takes the route stored at the position `path` names; uncounts it (not below zero)
    /// when there was one, counts a write and an access, and notes the time.
    pub(crate) fn take_route(&mut self, path: &str) -> (r: Option<Arc<R>>)
        requires
            old(self).wf(),
            old(self).counters().write_count < usize::MAX,
            old(self).counters().total_access < usize::MAX,
        ensures
            final(self).wf(),
            final(self).shard_id() == old(self).shard_id(),
            r == old(self).tree().stored_route(path@),
            final(self).tree().route_count() + (if r is Some { 1int } else { 0int }) == old(self).tree().route_count(),
            forall|q: Seq<char>| #[trigger] final(self).tree().stored_route(q) == (
                if crate::segment_tree::same_position(segments(path@), segments(q), 0) { None }
                else { old(self).tree().stored_route(q) }),
            final(self).counters().route_count == if r is Some && old(self).counters().route_count > 0 {
                old(self).counters().route_count - 1
            } else {
                old(self).counters().route_count as int
            },
            final(self).counters().write_count == old(self).counters().write_count + 1,
            final(self).counters().total_access == old(self).counters().total_access + 1,
            final(self).counters().read_count == old(self).counters().read_count,
            final(self).counters().avg_latency_ns == old(self).counters().avg_latency_ns,
            final(self).counters().active_connections == old(self).counters().active_connections,
            final(self).counters().last_access is Some,
    {
        let result = self.inner.take_route(path);
        if result.is_some() {
            self.metrics.route_count = if self.metrics.route_count > 0 { self.metrics.route_count - 1 } else { 0 };
        }
        self.metrics.write_count = self.metrics.write_count + 1;
        self.metrics.total_access = self.metrics.total_access + 1;
        self.metrics.last_access = Some(instant_now());
        result
    }

    /// Removes the route for `path`; uncounts it (not below zero) when there was one,
    /// counts a write and an access, and notes the time.
    pub fn remove(&mut self, path: &str) -> (r: Option<Arc<R>>)
        requires
            old(self).wf(),
            old(self).counters().write_count < usize::MAX,
            old(self).counters().total_access < usize::MAX,
        ensures
            final(self).wf(),
            final(self).shard_id() == old(self).shard_id(),
            r == old(self).tree().removable(path@),
            final(self).tree().route_count() + (if r is Some { 1int } else { 0int }) == old(self).tree().route_count(),
            forall|q: Seq<char>| #[trigger] final(self).tree().stored_route(q) == old(self).tree().stored_route(q)
                || final(self).tree().stored_route(q) is None,
            forall|q: Seq<char>| r is None || !crate::segment_tree::may_name(segments(path@), segments(q), 0)
                ==> #[trigger] final(self).tree().stored_route(q) == old(self).tree().stored_route(q),
            final(self).counters().route_count == if r is Some && old(self).counters().route_count > 0 {
                old(self).counters().route_count - 1
            } else {
                old(self).counters().route_count as int
            },
            final(self).counters().write_count == old(self).counters().write_count + 1,
            final(self).counters().total_access == old(self).counters().total_access + 1,
            final(self).counters().read_count == old(self).counters().read_count,
            final(self).counters().avg_latency_ns == old(self).counters().avg_latency_ns,
            final(self).counters().active_connections == old(self).counters().active_connections,
            final(self).counters().last_access is Some,
    {
        let result = self.inner.remove(path);
        if result.is_some() {
            self.metrics.route_count = if self.metrics.route_count > 0 { self.metrics.route_count - 1 } else { 0 };
        }
        self.metrics.write_count = self.metrics.write_count + 1;
        self.metrics.total_access = self.metrics.total_access + 1;
        self.metrics.last_access = Some(instant_now());
        result
    }

    /// Looks `path` up, counting a read and an access and noting the time; a successful
    /// lookup is timed and averaged into the latency (when that average fits a `u64`, see
    /// `latency_fits`; otherwise the average is left as it was).
    pub fn find(&mut self, path: &str) -> (r: Option<(&Arc<R>, Vec<(String, String)>)>)
        requires
            old(self).counters().read_count < usize::MAX,
            old(self).counters().total_access < usize::MAX,
        ensures
            final(self).tree() == old(self).tree(),
            final(self).wf() == old(self).wf(),
            final(self).shard_id() == old(self).shard_id(),
            match old(self).tree().lookup(path@) {
                Some((route, ps)) => r matches Some((x, v)) && *x == route && pairs_view(v@) == ps,
                None => r is None,
            },
            final(self).counters().read_count == old(self).counters().read_count + 1,
            final(self).counters().total_access == old(self).counters().total_access + 1,
            final(self).counters().route_count == old(self).counters().route_count,
            final(self).counters().write_count == old(self).counters().write_count,
            final(self).counters().active_connections == old(self).counters().active_connections,
            final(self).counters().last_access is Some,
            old(self).tree().lookup(path@) is None ==> final(self).counters().avg_latency_ns == old(self).counters().avg_latency_ns,
            old(self).tree().lookup(path@) is Some ==> final(self).counters().avg_latency_ns == old(self).counters().avg_latency_ns
                || exists|latency: u64| latency_fits(old(self).counters().avg_latency_ns, final(self).counters().total_access, latency)
                    && final(self).counters().avg_latency_ns
                        == #[trigger] next_latency(old(self).counters().avg_latency_ns, final(self).counters().total_access, latency),
    {
        let start = instant_now();
        let result = self.inner.find(path);
        let duration = instant_elapsed(&start);
        self.metrics.read_count = self.metrics.read_count + 1;
        self.metrics.total_access = self.metrics.total_access + 1;
        self.metrics.last_access = Some(instant_now());
        if result.is_some() {
            let new_latency = duration_as_nanos(&duration) as u64;
            let total = self.metrics.total_access as u64;
            let avg = self.metrics.avg_latency_ns;
            let prev = total - 1;
            if avg == 0 || prev <= (u64::MAX - new_latency) / avg {
                proof {
                    if avg != 0 {
                        assert(avg * prev <= u64::MAX - new_latency) by (nonlinear_arith)
                            requires avg > 0, prev <= (u64::MAX - new_latency) / avg as int;
                    } else {
                        assert(avg * prev == 0) by (nonlinear_arith) requires avg == 0;
                    }
                }
                self.metrics.avg_latency_ns = (avg * prev + new_latency) / total;
                proof {
                    assert(latency_fits(avg, self.metrics.total_access, new_latency));
                    assert(self.metrics.avg_latency_ns == next_latency(avg, self.metrics.total_access, new_latency));
                }
            }
        }
        result
    }

    /// Whether a lookup of `path` finds a route.
    pub fn contains(&self, path: &str) -> (r: bool)
        ensures
            r == self.tree().lookup(path@) is Some,
    {
        self.inner.contains(path)
    }

    /// The paths of the shard's routes.
    pub fn list_paths(&self) -> (r: Vec<String>)
        ensures
            strings_view(r@) == self.tree().paths(),
    {
        self.inner.list_paths()
    }

    /// The paths of the shard's routes, in a vector sized for the counted routes.
    pub fn list_paths_with_capacity(&self) -> (r: Vec<String>)
        ensures
            strings_view(r@) == self.tree().paths(),
    {
        let count = self.metrics.route_count;
        let mut paths: Vec<String> = Vec::with_capacity(count);
        let mut listed = self.inner.list_paths();
        paths.append(&mut listed);
        assert(strings_view(paths@) =~= self.tree().paths());
        paths
    }

    /// Removes every route and resets the counters.
    pub fn clear(&mut self)
        ensures
            final(self).wf(),
            final(self).shard_id() == old(self).shard_id(),
            forall|p: Seq<char>| #[trigger] final(self).tree().lookup(p) is None,
            final(self).tree().paths() == Seq::<Seq<char>>::empty(),
            final(self).counters().route_count == 0 && final(self).counters().total_access == 0
                && final(self).counters().read_count == 0 && final(self).counters().write_count == 0
                && final(self).counters().last_access is None && final(self).counters().avg_latency_ns == 0
                && final(self).counters().active_connections == 0,
    {
        self.inner.clear();
        self.metrics = ShardMetrics::default();
    }

    /// Every listed path whose lookup finds a route, with that route (shared, not copied).
    /// Each lookup is counted as `find` counts it.
    pub fn get_all_routes(&mut self) -> (r: Vec<(String, Arc<R>)>)
        requires
            old(self).counters().read_count + old(self).tree().paths().len() < usize::MAX,
            old(self).counters().total_access + old(self).tree().paths().len() < usize::MAX,
        ensures
            final(self).tree() == old(self).tree(),
            final(self).shard_id() == old(self).shard_id(),
            final(self).counters().route_count == old(self).counters().route_count,
            final(self).counters().write_count == old(self).counters().write_count,
            r@.map_values(|e: (String, Arc<R>)| (e.0@, e.1))
                == found_routes(old(self).tree(), old(self).tree().paths(), old(self).tree().paths().len() as int),
    {
        self.get_all_routes_with_capacity()
    }

    /// `get_all_routes`, with the result sized for the counted routes.
    pub fn get_all_routes_with_capacity(&mut self) -> (r: Vec<(String, Arc<R>)>)
        requires
            old(self).counters().read_count + old(self).tree().paths().len() < usize::MAX,
            old(self).counters().total_access + old(self).tree().paths().len() < usize::MAX,
        ensures
            final(self).tree() == old(self).tree(),
            final(self).shard_id() == old(self).shard_id(),
            final(self).counters().route_count == old(self).counters().route_count,
            final(self).counters().write_count == old(self).counters().write_count,
            r@.map_values(|e: (String, Arc<R>)| (e.0@, e.1))
                == found_routes(old(self).tree(), old(self).tree().paths(), old(self).tree().paths().len() as int),
    {
        let count = self.metrics.route_count;
        let mut routes: Vec<(String, Arc<R>)> = Vec::with_capacity(count);
        let paths = self.list_paths_with_capacity();
        let ghost tree = self.tree();
        let ghost all = strings_view(paths@);
        let ghost read0 = self.metrics.read_count;
        let ghost total0 = self.metrics.total_access;
        let mut i: usize = 0;
        while i < paths.len()
            invariant
                self.tree() == tree,
                self.shard_id() == old(self).shard_id(),
                self.metrics.route_count == old(self).counters().route_count,
                self.metrics.write_count == old(self).counters().write_count,
                all == strings_view(paths@),
                all == tree.paths(),
                i <= paths@.len(),
                self.metrics.read_count == read0 + i,
                self.metrics.total_access == total0 + i,
                read0 + all.len() < usize::MAX,
                total0 + all.len() < usize::MAX,
                routes@.map_values(|e: (String, Arc<R>)| (e.0@, e.1)) == found_routes(tree, all, i as int),
            decreases paths@.len() - i,
        {
            let ghost before = routes@.map_values(|e: (String, Arc<R>)| (e.0@, e.1));
            let path = &paths[i];
            let found = self.find(path.as_str());
            match found {
                Some((route, _)) => {
                    let shared = route.clone();
                    routes.push((path.clone(), shared));
                    proof {
                        assert(routes@.map_values(|e: (String, Arc<R>)| (e.0@, e.1)) =~= before.push((all[i as int], shared)));
                    }
                },
                None => {},
            }
            i = i + 1;
        }
        routes
    }
}

/// How the manager picks a shard for a new route.
#[derive(Debug, Clone, Copy, PartialEq, Eq, Structural)]
pub enum LoadBalanceStrategy {
    /// The shard with the fewest routes.
    RouteCount,
    /// The shard with the fewest accesses.
    AccessFrequency,
    /// The shard with the lowest load score (routes, accesses, latency, connections).
    Comprehensive,
    /// Each shard in turn.
    RoundRobin,
}

impl Default for LoadBalanceStrategy {
    fn default() -> (r: Self)
        ensures
            r == LoadBalanceStrategy::Comprehensive,
    {
        LoadBalanceStrategy::Comprehensive
    }
}

/// The shard-count limits and strategy of a manager.
#[derive(Debug, Clone, Copy)]
pub struct DynamicShardingConfig {
    /// Shards to start with (at least `min_shards` are made).
    pub initial_shards: usize,
    /// The fewest shards.
    pub min_shards: usize,
    /// The most shards.
    pub max_shards: usize,
    /// How shards are picked.
    pub strategy: LoadBalanceStrategy,
    /// How often the load is checked.
    pub balance_check_interval: Duration,
    /// Whether the load is rebalanced automatically.
    pub auto_rebalance: bool,
}

impl Default for DynamicShardingConfig {
    fn default() -> (r: Self)
        ensures
            r.initial_shards == 8 && r.min_shards == 2 && r.max_shards == 64
                && r.strategy == LoadBalanceStrategy::Comprehensive && r.auto_rebalance,
    {
        DynamicShardingConfig {
            initial_shards: 8,
            min_shards: 2,
            max_shards: 64,
            strategy: LoadBalanceStrategy::Comprehensive,
            balance_check_interval: duration_from_secs(10),
            auto_rebalance: true,
        }
    }
}

/// Whether `i` is the first position of the smallest of `v`.
pub open spec fn is_first_min(v: Seq<usize>, i: int) -> bool {
    &&& 0 <= i < v.len()
    &&& forall|j: int| 0 <= j < v.len() ==> v[i] <= #[trigger] v[j]
    &&& forall|j: int| 0 <= j < i ==> v[i] < #[trigger] v[j]
}

/// The first position of the smallest of `v`.
pub open spec fn first_min(v: Seq<usize>) -> int {
    choose|i: int| #[trigger] is_first_min(v, i)
}

/// The first position of the smallest of `v`, or 0 when `v` is empty.
pub open spec fn least_index(v: Seq<usize>) -> int {
    if v.len() == 0 { 0 } else { first_min(v) }
}

/// The sum of the shards' route counters.
pub open spec fn counted_routes<R>(shards: Seq<DynamicShard<R>>, n: int) -> int
    decreases n,
{
    if n <= 0 { 0 } else { counted_routes(shards, n - 1) + shards[n - 1].counters().route_count }
}

/// Shards of routes and the choices of where new routes go.
pub struct DynamicShardManager<R> {
    shards: Vec<DynamicShard<R>>,
    config: DynamicShardingConfig,
    total_routes: usize,
    round_robin_index: usize,
}

impl<R> DynamicShardManager<R> {
    /// The manager's invariant: every shard is well formed.
    pub open spec fn wf(&self) -> bool {
        forall|i: int| 0 <= i < self.shard_list().len() ==> (#[trigger] self.shard_list()[i]).wf()
    }

    /// The shards.
    pub closed spec fn shard_list(&self) -> Seq<DynamicShard<R>> {
        self.shards@
    }

    /// The settings.
    pub closed spec fn settings(&self) -> DynamicShardingConfig {
        self.config
    }

    /// The route counter kept by the manager.
    pub closed spec fn route_counter(&self) -> usize {
        self.total_routes
    }

    /// The next round-robin position.
    pub closed spec fn turn(&self) -> usize {
        self.round_robin_index
    }

    /// A manager with `max(initial_shards, min_shards)` empty shards, ids counting up from 0.
    pub fn new(config: DynamicShardingConfig) -> (r: Self)
        ensures
            r.wf(),
            r.settings() == config,
            r.shard_list().len() == if config.initial_shards >= config.min_shards { config.initial_shards } else { config.min_shards },
            forall|i: int| 0 <= i < r.shard_list().len() ==> (#[trigger] r.shard_list()[i]).shard_id() == i
                && r.shard_list()[i].counters().route_count == 0,
            r.route_counter() == 0,
            r.turn() == 0,
    {
        let shard_count = if config.initial_shards >= config.min_shards { config.initial_shards } else { config.min_shards };
        let mut shards: Vec<DynamicShard<R>> = Vec::new();
        let mut id: usize = 0;
        while id < shard_count
            invariant
                id <= shard_count,
                shards@.len() == id,
                forall|i: int| 0 <= i < id ==> (#[trigger] shards@[i]).wf() && shards@[i].shard_id() == i
                    && shards@[i].counters().route_count == 0,
            decreases shard_count - id,
        {
            shards.push(DynamicShard::new(id));
            id = id + 1;
        }
        DynamicShardManager { shards, config, total_routes: 0, round_robin_index: 0 }
    }

    /// The settings.
    pub fn config(&self) -> (r: &DynamicShardingConfig)
        ensures
            *r == self.settings(),
    {
        &self.config
    }

    /// Sets how shards are picked.
    pub fn set_strategy(&mut self, strategy: LoadBalanceStrategy)
        ensures
            final(self).settings() == (DynamicShardingConfig { strategy, ..old(self).settings() }),
            final(self).shard_list() == old(self).shard_list(),
            final(self).route_counter() == old(self).route_counter(),
            final(self).turn() == old(self).turn(),
    {
        self.config.strategy = strategy;
    }

    /// Counts one more route (wrapping).
    pub fn increment_total_routes(&mut self)
        ensures
            final(self).route_counter() == bump(old(self).route_counter()),
            final(self).shard_list() == old(self).shard_list(),
            final(self).settings() == old(self).settings(),
            final(self).turn() == old(self).turn(),
    {
        self.total_routes = bump_exec(self.total_routes);
    }

    /// Counts one route fewer (wrapping).
    pub fn decrement_total_routes(&mut self)
        ensures
            final(self).route_counter() == unbump(old(self).route_counter()),
            final(self).shard_list() == old(self).shard_list(),
            final(self).settings() == old(self).settings(),
            final(self).turn() == old(self).turn(),
    {
        self.total_routes = unbump_exec(self.total_routes);
    }

    /// Sets the route counter to zero.
    pub fn reset_total_routes(&mut self)
        ensures
            final(self).route_counter() == 0,
            final(self).shard_list() == old(self).shard_list(),
            final(self).settings() == old(self).settings(),
            final(self).turn() == old(self).turn(),
    {
        self.total_routes = 0;
    }

    /// The sum of the shards' route counters.
    pub fn calculate_actual_total_routes(&self) -> (r: usize)
        requires
            counted_routes(self.shard_list(), self.shard_list().len() as int) <= usize::MAX,
        ensures
            r == counted_routes(self.shard_list(), self.shard_list().len() as int),
    {
        let mut total: usize = 0;
        let mut i: usize = 0;
        while i < self.shards.len()
            invariant
                i <= self.shards@.len(),
                total == counted_routes(self.shards@, i as int),
                counted_routes(self.shards@, self.shards@.len() as int) <= usize::MAX,
            decreases self.shards@.len() - i,
        {
            proof { lemma_counted_mono(self.shards@, i as int + 1, self.shards@.len() as int); }
            total = total + self.shards[i].route_count();
            i = i + 1;
        }
        total
    }

    /// The number of shards.
    pub fn shard_count(&self) -> (r: usize)
        ensures
            r == self.shard_list().len(),
    {
        self.shards.len()
    }

    /// The route counter kept by the manager.
    pub fn total_routes(&self) -> (r: usize)
        ensures
            r == self.route_counter(),
    {
        self.total_routes
    }

    /// The shard a new route goes to, by the strategy: the next one in turn, the first
    /// with the fewest routes, or the first with the fewest accesses (0 when there are no
    /// shards). The comprehensive strategy weighs load scores, which are floating point and
    /// are not computed here: it gives `None`.
    pub fn select_shard(&mut self, path: &str) -> (r: Option<usize>)
        requires
            old(self).settings().strategy == LoadBalanceStrategy::RoundRobin ==> old(self).shard_list().len() > 0,
        ensures
            final(self).shard_list() == old(self).shard_list(),
            final(self).settings() == old(self).settings(),
            final(self).route_counter() == old(self).route_counter(),
            match old(self).settings().strategy {
                LoadBalanceStrategy::RoundRobin => (r matches Some(i) && i == old(self).turn() as int % old(self).shard_list().len() as int)
                    && final(self).turn() == bump(old(self).turn()),
                LoadBalanceStrategy::RouteCount => (r matches Some(i) && i == least_index(old(self).shard_list().map_values(
                    |s: DynamicShard<R>| s.counters().route_count))) && final(self).turn() == old(self).turn(),
                LoadBalanceStrategy::AccessFrequency => (r matches Some(i) && i == least_index(old(self).shard_list().map_values(
                    |s: DynamicShard<R>| s.counters().total_access))) && final(self).turn() == old(self).turn(),
                LoadBalanceStrategy::Comprehensive => r is None && final(self).turn() == old(self).turn(),
            },
    {
        match self.config.strategy {
            LoadBalanceStrategy::RoundRobin => {
                let index = self.round_robin_index;
                self.round_robin_index = bump_exec(index);
                Some(index % self.shards.len())
            },
            LoadBalanceStrategy::RouteCount => {
                let mut counts: Vec<usize> = Vec::new();
                let mut i: usize = 0;
                while i < self.shards.len()
                    invariant
                        i <= self.shards@.len(),
                        counts@ == self.shards@.subrange(0, i as int).map_values(|s: DynamicShard<R>| s.counters().route_count),
                    decreases self.shards@.len() - i,
                {
                    counts.push(self.shards[i].route_count());
                    proof {
                        assert(counts@ =~= self.shards@.subrange(0, i + 1).map_values(|s: DynamicShard<R>| s.counters().route_count));
                    }
                    i = i + 1;
                }
                assert(self.shards@.subrange(0, self.shards@.len() as int) =~= self.shards@);
                Some(select_min(&counts))
            },
            LoadBalanceStrategy::AccessFrequency => {
                let mut counts: Vec<usize> = Vec::new();
                let mut i: usize = 0;
                while i < self.shards.len()
                    invariant
                        i <= self.shards@.len(),
                        counts@ == self.shards@.subrange(0, i as int).map_values(|s: DynamicShard<R>| s.counters().total_access),
                    decreases self.shards@.len() - i,
                {
                    counts.push(self.shards[i].metrics().total_access);
                    proof {
                        assert(counts@ =~= self.shards@.subrange(0, i + 1).map_values(|s: DynamicShard<R>| s.counters().total_access));
                    }
                    i = i + 1;
                }
                assert(self.shards@.subrange(0, self.shards@.len() as int) =~= self.shards@);
                Some(select_min(&counts))
            },
            LoadBalanceStrategy::Comprehensive => None,
        }
    }
}

/// Whether `q` names the same position as one of `ps`.
pub open spec fn names_one_of(ps: Seq<Seq<char>>, q: Seq<char>) -> bool {
    exists|j: int| 0 <= j < ps.len() && same_position(segments(ps[j]), segments(q), 0)
}

/// The paths a move takes from `t` among the first `m` of `list`, in order: each one whose
/// position still holds a route (it holds one in `t` and no path taken before names it),
/// until `quota` are taken.
pub open spec fn moves<R>(t: RouteRadixTree<R>, list: Seq<Seq<char>>, m: int, quota: nat) -> Seq<Seq<char>>
    decreases m,
{
    if m <= 0 {
        Seq::empty()
    } else {
        let prev = moves(t, list, m - 1, quota);
        let p = list[m - 1];
        if prev.len() < quota && t.stored_route(p) is Some && !names_one_of(prev, p) { prev.push(p) } else { prev }
    }
}

/// Once `quota` paths are taken, no more are.
proof fn lemma_moves_full<R>(t: RouteRadixTree<R>, list: Seq<Seq<char>>, m: int, m2: int, quota: nat)
    requires
        0 <= m <= m2,
        moves(t, list, m, quota).len() >= quota,
    ensures
        moves(t, list, m2, quota) == moves(t, list, m, quota),
    decreases m2 - m,
{
    if m2 > m {
        lemma_moves_full(t, list, m, m2 - 1, quota);
    }
}

/// Naming the same position is transitive.
proof fn lemma_same_position_trans(a: Seq<Seq<char>>, b: Seq<Seq<char>>, c: Seq<Seq<char>>)
    requires
        same_position(a, b, 0),
        same_position(b, c, 0),
    ensures
        same_position(a, c, 0),
{
    assert forall|k: int| 0 <= k < a.len() implies (is_param_segment(#[trigger] a[k]) && is_param_segment(c[k])) || a[k] == c[k] by {
        assert((is_param_segment(a[k]) && is_param_segment(b[k])) || a[k] == b[k]);
        assert((is_param_segment(b[k]) && is_param_segment(c[k])) || b[k] == c[k]);
    }
}

/// `a - b`, or zero when `b` is larger.
pub open spec fn saturating_minus(a: usize, b: usize) -> usize {
    if a >= b { (a - b) as usize } else { 0 }
}

/// Whether the counters of shard `s` can take `n` more removals and insertions.
pub open spec fn has_room<R>(s: DynamicShard<R>, n: nat) -> bool {
    &&& s.counters().write_count + 2 * n < usize::MAX
    &&& s.counters().total_access + 2 * n < usize::MAX
    &&& s.counters().route_count + n < usize::MAX
}

impl<R> DynamicShardManager<R> {
    /// Moves up to half of the routes listed in shard `from_idx` to shard `to_idx`, in the
    /// order they are listed: for each listed path the route stored at the position it
    /// names is taken off the source and, when there was one, that same route is stored
    /// under the same path in the target. Gives the number of routes moved.
    pub fn move_routes_between_shards(&mut self, from_idx: usize, to_idx: usize) -> (r: usize)
        requires
            old(self).wf(),
            from_idx < old(self).shard_list().len(),
            to_idx < old(self).shard_list().len(),
            has_room(old(self).shard_list()[from_idx as int], old(self).shard_list()[from_idx as int].tree().paths().len()),
            has_room(old(self).shard_list()[to_idx as int], old(self).shard_list()[from_idx as int].tree().paths().len()),
        ensures
            final(self).wf(),
            final(self).shard_list().len() == old(self).shard_list().len(),
            final(self).settings() == old(self).settings(),
            final(self).route_counter() == old(self).route_counter(),
            final(self).turn() == old(self).turn(),
            forall|k: int| 0 <= k < old(self).shard_list().len() && k != from_idx && k != to_idx
                ==> #[trigger] final(self).shard_list()[k] == old(self).shard_list()[k],
            forall|k: int| 0 <= k < old(self).shard_list().len()
                ==> (#[trigger] final(self).shard_list()[k]).shard_id() == old(self).shard_list()[k].shard_id(),
            r <= old(self).shard_list()[from_idx as int].tree().paths().len() / 2,
            old(self).shard_list()[from_idx as int].tree().paths().len() >= 2 ==> r >= 1,
            old(self).shard_list()[from_idx as int].tree().paths().len() == 0 ==> r == 0
                && final(self).shard_list() == old(self).shard_list(),
            from_idx != to_idx ==> final(self).shard_list()[from_idx as int].tree().route_count() + r
                == old(self).shard_list()[from_idx as int].tree().route_count(),
            from_idx != to_idx ==> final(self).shard_list()[from_idx as int].counters().route_count
                == saturating_minus(old(self).shard_list()[from_idx as int].counters().route_count, r),
            from_idx != to_idx ==> final(self).shard_list()[to_idx as int].counters().write_count
                == old(self).shard_list()[to_idx as int].counters().write_count + r,
            from_idx != to_idx ==> ({
                let src = old(self).shard_list()[from_idx as int].tree();
                let mv = moves(src, src.paths(), src.paths().len() as int, src.paths().len() / 2);
                &&& r == mv.len()
                &&& forall|q: Seq<char>| #[trigger] final(self).shard_list()[from_idx as int].tree().stored_route(q)
                    == if names_one_of(mv, q) { None } else { src.stored_route(q) }
                &&& forall|q: Seq<char>| #[trigger] final(self).shard_list()[to_idx as int].tree().stored_route(q)
                    == if names_one_of(mv, q) { src.stored_route(q) } else { old(self).shard_list()[to_idx as int].tree().stored_route(q) }
            }),
    {
        let ghost old_shards = self.shards@;
        let ghost from = from_idx as int;
        let ghost to = to_idx as int;
        assert(old_shards[from].wf());
        let paths = self.shards[from_idx].list_paths_with_capacity();
        let ghost n = old_shards[from].tree().paths().len();
        let ghost t0 = old_shards[from].tree();
        let ghost lst = t0.paths();
        assert(paths@.len() == n) by {
            assert(strings_view(paths@).len() == paths@.len());
        }
        if paths.len() == 0 {
            return 0;
        }
        let move_count = paths.len() / 2;
        let mut moved: usize = 0;
        let ghost mut moved_paths: Seq<Seq<char>> = Seq::empty();
        let mut i: usize = 0;
        while i < paths.len()
            invariant_except_break
                moved <= move_count,
            invariant
                self.wf(),
                self.shards@.len() == old_shards.len(),
                self.config == old(self).config,
                self.total_routes == old(self).total_routes,
                self.round_robin_index == old(self).round_robin_index,
                from == from_idx as int,
                to == to_idx as int,
                0 <= from < old_shards.len(),
                0 <= to < old_shards.len(),
                old_shards == old(self).shards@,
                t0 == old_shards[from].tree(),
                lst == t0.paths(),
                paths@.len() == n,
                lst.len() == n,
                move_count == n / 2,
                i <= n,
                moved <= i,
                i == 0 ==> self.shards@ == old_shards,
                i >= 1 && n >= 2 ==> moved >= 1,
                strings_view(paths@) == lst,
                forall|k: int| 0 <= k < old_shards.len() && k != from && k != to
                    ==> #[trigger] self.shards@[k] == old_shards[k],
                forall|k: int| 0 <= k < old_shards.len()
                    ==> (#[trigger] self.shards@[k]).shard_id() == old_shards[k].shard_id(),
                has_room(old_shards[from], n),
                has_room(old_shards[to], n),
                self.shards@[from].counters().write_count <= old_shards[from].counters().write_count + 2 * i,
                self.shards@[from].counters().total_access <= old_shards[from].counters().total_access + 2 * i,
                self.shards@[from].counters().route_count <= old_shards[from].counters().route_count + i,
                self.shards@[to].counters().write_count <= old_shards[to].counters().write_count + 2 * i,
                self.shards@[to].counters().total_access <= old_shards[to].counters().total_access + 2 * i,
                self.shards@[to].counters().route_count <= old_shards[to].counters().route_count + i,
                from != to ==> self.shards@[from].tree().route_count() + moved == old_shards[from].tree().route_count(),
                from != to ==> self.shards@[from].counters().route_count
                    == saturating_minus(old_shards[from].counters().route_count, moved),
                from != to ==> self.shards@[to].counters().write_count == old_shards[to].counters().write_count + moved,
                from != to ==> moved_paths == moves(t0, lst, i as int, move_count as nat),
                from != to ==> moved_paths.len() == moved,
                from != to ==> forall|q: Seq<char>| #[trigger] self.shards@[from].tree().stored_route(q)
                    == if names_one_of(moved_paths, q) { None } else { t0.stored_route(q) },
                from != to ==> forall|q: Seq<char>| #[trigger] self.shards@[to].tree().stored_route(q)
                    == if names_one_of(moved_paths, q) { t0.stored_route(q) } else { old_shards[to].tree().stored_route(q) },
            ensures
                moved <= move_count,
                n >= 2 ==> moved >= 1,
                self.wf(),
                self.shards@.len() == old_shards.len(),
                self.config == old(self).config,
                self.total_routes == old(self).total_routes,
                self.round_robin_index == old(self).round_robin_index,
                forall|k: int| 0 <= k < old_shards.len() && k != from && k != to
                    ==> #[trigger] self.shards@[k] == old_shards[k],
                forall|k: int| 0 <= k < old_shards.len()
                    ==> (#[trigger] self.shards@[k]).shard_id() == old_shards[k].shard_id(),
                from != to ==> self.shards@[from].tree().route_count() + moved == old_shards[from].tree().route_count(),
                from != to ==> self.shards@[from].counters().route_count
                    == saturating_minus(old_shards[from].counters().route_count, moved),
                from != to ==> self.shards@[to].counters().write_count == old_shards[to].counters().write_count + moved,
                from != to ==> moved_paths == moves(t0, lst, n as int, move_count as nat),
                from != to ==> moved_paths.len() == moved,
                from != to ==> forall|q: Seq<char>| #[trigger] self.shards@[from].tree().stored_route(q)
                    == if names_one_of(moved_paths, q) { None } else { t0.stored_route(q) },
                from != to ==> forall|q: Seq<char>| #[trigger] self.shards@[to].tree().stored_route(q)
                    == if names_one_of(moved_paths, q) { t0.stored_route(q) } else { old_shards[to].tree().stored_route(q) },
            decreases n - i,
        {
            if moved >= move_count {
                proof {
                    if from != to {
                        lemma_moves_full(t0, lst, i as int, n as int, move_count as nat);
                    }
                }
                break;
            }
            let ghost before = self.shards@;
            assert(self.shard_list()[from].wf());
            proof {
                if i == 0 {
                    lemma_listed_paths_removable(t0, 0);
                    assert(paths@[0]@ == strings_view(paths@)[0]);
                }
            }
            let ghost pth = paths@[i as int]@;
            assert(pth == lst[i as int]);
            let route = self.shards[from_idx].take_route(paths[i].as_str());
            proof {
                assert(self.shards@ == before.update(from, self.shards@[from]));
                if i == 0 {
                    assert(route is Some);
                }
            }
            let ghost prev_moved = moved_paths;
            match route {
                Some(route) => {
                    let ghost mid = self.shards@;
                    assert(self.shard_list()[to].wf());
                    let ghost rt = route;
                    self.shards[to_idx].insert_arc(paths[i].as_str(), route);
                    proof {
                        assert(self.shards@ == mid.update(to, self.shards@[to]));
                        if from != to {
                            assert(mid[to] == before[to]);
                            assert(before[from].tree().stored_route(pth) == Some(rt));
                            assert(!names_one_of(prev_moved, pth));
                            assert(t0.stored_route(pth) == Some(rt));
                            let np = prev_moved.push(pth);
                            assert(moves(t0, lst, i + 1, move_count as nat) == np);
                            assert forall|q: Seq<char>| #[trigger] names_one_of(np, q)
                                == (names_one_of(prev_moved, q) || same_position(segments(pth), segments(q), 0)) by {
                                if names_one_of(np, q) {
                                    let j = choose|j: int| 0 <= j < np.len() && same_position(segments(np[j]), segments(q), 0);
                                    if j < prev_moved.len() {
                                        assert(np[j] == prev_moved[j]);
                                    }
                                }
                                if names_one_of(prev_moved, q) {
                                    let j = choose|j: int| 0 <= j < prev_moved.len() && same_position(segments(prev_moved[j]), segments(q), 0);
                                    assert(np[j] == prev_moved[j]);
                                }
                                if same_position(segments(pth), segments(q), 0) {
                                    assert(np[prev_moved.len() as int] == pth);
                                }
                            }
                            assert forall|q: Seq<char>| #[trigger] self.shards@[from].tree().stored_route(q)
                                == if names_one_of(np, q) { None } else { t0.stored_route(q) } by {
                                assert(self.shards@[from] == mid[from]);
                            }
                            assert forall|q: Seq<char>| #[trigger] self.shards@[to].tree().stored_route(q)
                                == if names_one_of(np, q) { t0.stored_route(q) } else { old_shards[to].tree().stored_route(q) } by {
                                if same_position(segments(pth), segments(q), 0) {
                                    lemma_same_position_stored(t0, pth, q);
                                }
                            }
                            moved_paths = np;
                        }
                    }
                    moved = moved + 1;
                },
                None => {
                    proof {
                        if from != to {
                            assert(moves(t0, lst, i + 1, move_count as nat) == prev_moved) by {
                                if prev_moved.len() < move_count && t0.stored_route(pth) is Some {
                                    assert(names_one_of(prev_moved, pth));
                                }
                            }
                            assert forall|q: Seq<char>| #[trigger] self.shards@[from].tree().stored_route(q)
                                == if names_one_of(prev_moved, q) { None } else { t0.stored_route(q) } by {
                                if same_position(segments(pth), segments(q), 0) {
                                    lemma_same_position_stored(before[from].tree(), pth, q);
                                    lemma_same_position_stored(t0, pth, q);
                                    if !names_one_of(prev_moved, q) {
                                        if names_one_of(prev_moved, pth) {
                                            let j = choose|j: int| 0 <= j < prev_moved.len()
                                                && same_position(segments(prev_moved[j]), segments(pth), 0);
                                            lemma_same_position_trans(segments(prev_moved[j]), segments(pth), segments(q));
                                            assert(false);
                                        }
                                    }
                                }
                            }
                        }
                    }
                },
            }
            proof {
                assert forall|k: int| 0 <= k < self.shards@.len() implies (#[trigger] self.shards@[k]).wf() by {
                    if k != from && k != to {
                        assert(self.shards@[k] == before[k]);
                    }
                }
            }
            i = i + 1;
        }
        moved
    }

    /// Adds a shard (when `increase`) with the next id, or removes the last shard, which
    /// must hold no counted route. Refused beyond `max_shards` or below `min_shards`.
    pub fn adjust_shard_count(&mut self, increase: bool) -> (r: Result<(), String>)
        requires
            old(self).wf(),
        ensures
            final(self).wf(),
            final(self).settings() == old(self).settings(),
            final(self).route_counter() == old(self).route_counter(),
            final(self).turn() == old(self).turn(),
            ({
                let n = old(self).shard_list().len();
                if increase {
                    if n >= old(self).settings().max_shards {
                        &&& r matches Err(e) && e@ == "已达到最大分片数量"@
                        &&& final(self).shard_list() == old(self).shard_list()
                    } else {
                        &&& r is Ok
                        &&& final(self).shard_list().len() == n + 1
                        &&& final(self).shard_list().subrange(0, n as int) == old(self).shard_list()
                        &&& final(self).shard_list()[n as int].shard_id() == n
                        &&& forall|p: Seq<char>| #[trigger] final(self).shard_list()[n as int].tree().lookup(p) is None
                        &&& final(self).shard_list()[n as int].counters().route_count == 0
                    }
                } else {
                    if n <= old(self).settings().min_shards {
                        &&& r matches Err(e) && e@ == "已达到最小分片数量"@
                        &&& final(self).shard_list() == old(self).shard_list()
                    } else if old(self).shard_list()[n - 1].counters().route_count > 0 {
                        &&& r matches Err(e) && e@ == "最后一个分片不为空，无法移除"@
                        &&& final(self).shard_list() == old(self).shard_list()
                    } else {
                        &&& r is Ok
                        &&& final(self).shard_list() == old(self).shard_list().drop_last()
                    }
                }
            }),
    {
        let current_count = self.shards.len();
        if increase {
            if current_count >= self.config.max_shards {
                return Err(String::from_str("已达到最大分片数量"));
            }
            self.shards.push(DynamicShard::new(current_count));
        } else {
            if current_count <= self.config.min_shards {
                return Err(String::from_str("已达到最小分片数量"));
            }
            if self.shards[current_count - 1].route_count() > 0 {
                return Err(String::from_str("最后一个分片不为空，无法移除"));
            }
            self.shards.pop();
        }
        Ok(())
    }

    /// The counters of every shard, in order.
    pub fn get_all_metrics(&self) -> (r: Vec<ShardMetrics>)
        ensures
            r@ == self.shard_list().map_values(|s: DynamicShard<R>| s.counters()),
    {
        let count = self.shards.len();
        let mut metrics: Vec<ShardMetrics> = Vec::with_capacity(count);
        let mut i: usize = 0;
        while i < self.shards.len()
            invariant
                i <= self.shards@.len(),
                metrics@ == self.shards@.subrange(0, i as int).map_values(|s: DynamicShard<R>| s.counters()),
            decreases self.shards@.len() - i,
        {
            metrics.push(*self.shards[i].metrics());
            proof {
                assert(metrics@ =~= self.shards@.subrange(0, i + 1).map_values(|s: DynamicShard<R>| s.counters()));
            }
            i = i + 1;
        }
        assert(self.shards@.subrange(0, self.shards@.len() as int) =~= self.shards@);
        metrics
    }

    /// The shard at `index`, if there is one.
    pub fn get_shard(&self, index: usize) -> (r: Option<&DynamicShard<R>>)
        ensures
            index < self.shard_list().len() ==> r == Some(&self.shard_list()[index as int]),
            index >= self.shard_list().len() ==> r is None,
    {
        if index < self.shards.len() {
            Some(&self.shards[index])
        } else {
            None
        }
    }

    /// The shard at `index` for changing, if there is one. The manager keeps its invariant
    /// as long as the shard keeps its own.
    pub fn get_shard_mut(&mut self, index: usize) -> (r: Option<&mut DynamicShard<R>>)
        ensures
            index < old(self).shard_list().len() ==> (r matches Some(x) && *x == old(self).shard_list()[index as int]
                && final(self).shard_list() == old(self).shard_list().update(index as int, *final(x))),
            index >= old(self).shard_list().len() ==> r is None && final(self).shard_list() == old(self).shard_list(),
            final(self).settings() == old(self).settings(),
            final(self).route_counter() == old(self).route_counter(),
            final(self).turn() == old(self).turn(),
    {
        if index < self.shards.len() {
            Some(&mut self.shards[index])
        } else {
            None
        }
    }

    /// The index of the shard for `path` by its hash: `default_hash_of(path)` as a `usize`,
    /// modulo the number of shards.
    pub fn hash_shard_index(&self, path: &str) -> (r: usize)
        requires
            self.shard_list().len() > 0,
        ensures
            r == shard_for(default_hash_of(path@), self.shard_list().len() as usize),
            r < self.shard_list().len(),
    {
        let h = default_hash(path);
        shard_index_for_hash(h, self.shards.len())
    }
}

impl<R> Default for DynamicShardManager<R> {
    fn default() -> (r: Self)
        ensures
            r.wf(),
            r.settings().initial_shards == 8 && r.settings().min_shards == 2 && r.settings().max_shards == 64
                && r.settings().strategy == LoadBalanceStrategy::Comprehensive,
            r.shard_list().len() == 8,
            forall|i: int| 0 <= i < r.shard_list().len() ==> (#[trigger] r.shard_list()[i]).shard_id() == i
                && r.shard_list()[i].counters().route_count == 0,
            r.route_counter() == 0,
            r.turn() == 0,
    {
        Self::new(DynamicShardingConfig::default())
    }
}

/// The first position of the smallest value: the running minimum starts above every
/// value and moves only on a strictly smaller one.
fn select_min(v: &Vec<usize>) -> (r: usize)
    ensures
        r == least_index(v@),
        v@.len() > 0 ==> r < v@.len(),
{
    if v.len() == 0 {
        return 0;
    }
    let mut min_value: usize = usize::MAX;
    let mut selected: usize = 0;
    let mut i: usize = 0;
    while i < v.len()
        invariant
            v@.len() > 0,
            i <= v@.len(),
            selected < v@.len(),
            i > 0 ==> selected < i && min_value == v@[selected as int],
            i == 0 ==> selected == 0 && min_value == usize::MAX,
            forall|j: int| 0 <= j < i ==> min_value <= #[trigger] v@[j],
            forall|j: int| 0 <= j < selected ==> min_value < #[trigger] v@[j],
            i > 0 && min_value == usize::MAX ==> selected == 0,
        decreases v@.len() - i,
    {
        if v[i] < min_value {
            min_value = v[i];
            selected = i;
        }
        i = i + 1;
    }
    proof {
        let s = selected as int;
        assert(v@[s] == min_value) by {
            if min_value == usize::MAX {
                assert(v@[0] <= min_value);
            }
        }
        assert(is_first_min(v@, s));
        let c = first_min(v@);
        assert(c == s) by {
            if c < s {
                assert(v@[s] < v@[c]);
            } else if s < c {
                assert(v@[c] < v@[s]);
            }
        }
    }
    selected
}

proof fn lemma_counted_mono<R>(shards: Seq<DynamicShard<R>>, k: int, n: int)
    requires
        0 <= k <= n <= shards.len(),
    ensures
        counted_routes(shards, k) <= counted_routes(shards, n),
    decreases n - k,
{
    if k < n {
        lemma_counted_mono(shards, k, n - 1);
    }
}

} // verus!

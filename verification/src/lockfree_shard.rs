//! Load counters of a route table shard.
use std::sync::Arc;
use vstd::prelude::*;
use crate::text::{bump, bump_exec, segments, strings_view};
use crate::cache_optimized::{no_wildcard, pairs_view};
use crate::route_radix_tree::RouteRadixTree;
use crate::cache::{instant_now, instant_elapsed, duration_as_nanos};

verus! {

/// Counter step down: subtract one, wrapping at zero.
pub open spec fn unbump(x: usize) -> usize {
    if x == 0 { usize::MAX } else { (x - 1) as usize }
}

pub(crate) fn unbump_exec(x: usize) -> (r: usize)
    ensures
        r == unbump(x),
{
    if x == 0 { usize::MAX } else { x - 1 }
}

/// Load counters of a shard.
#[derive(Debug)]
pub struct LockfreeShardMetrics {
    /// Routes in the shard.
    pub route_count: usize,
    /// Reads and writes.
    pub total_access: usize,
    /// Reads.
    pub read_count: usize,
    /// Writes.
    pub write_count: usize,
    /// Running average read latency in nanoseconds.
    pub avg_latency_ns: usize,
    /// Open connections.
    pub active_connections: usize,
}

/// A copy of the counters at one moment.
#[derive(Debug, Clone)]
pub struct ShardMetricsSnapshot {
    pub route_count: usize,
    pub total_access: usize,
    pub read_count: usize,
    pub write_count: usize,
    pub avg_latency_ns: usize,
    pub active_connections: usize,
}

/// The running average after a read of `latency` when `total` accesses (this one included)
/// have been counted and the average was `avg`; unchanged when `total` is zero.
pub open spec fn next_avg(avg: usize, total: usize, latency: usize) -> usize {
    if total == 0 {
        avg
    } else {
        ((avg * (total - 1) + latency) / total as int) as usize
    }
}

impl Default for LockfreeShardMetrics {
    fn default() -> (r: LockfreeShardMetrics)
        ensures
            r.route_count == 0 && r.total_access == 0 && r.read_count == 0 && r.write_count == 0
                && r.avg_latency_ns == 0 && r.active_connections == 0,
    {
        LockfreeShardMetrics { route_count: 0, total_access: 0, read_count: 0, write_count: 0, avg_latency_ns: 0, active_connections: 0 }
    }
}

impl LockfreeShardMetrics {
    /// One more route.
    pub fn increment_route_count(&mut self)
        ensures
            *final(self) == (LockfreeShardMetrics { route_count: bump(old(self).route_count), ..*old(self) }),
    {
        self.route_count = bump_exec(self.route_count);
    }

    /// One route fewer (wrapping at zero).
    pub fn decrement_route_count(&mut self)
        ensures
            *final(self) == (LockfreeShardMetrics { route_count: unbump(old(self).route_count), ..*old(self) }),
    {
        self.route_count = unbump_exec(self.route_count);
    }

    /// The number of routes.
    pub fn get_route_count(&self) -> (r: usize)
        ensures
            r == self.route_count,
    {
        self.route_count
    }

    /// Counts a read of `latency_ns` nanoseconds and updates the running average latency.
    pub fn record_read(&mut self, latency_ns: u64)
        requires
            old(self).avg_latency_ns * (bump(old(self).total_access) as int - 1) + (latency_ns as usize) <= usize::MAX
                || bump(old(self).total_access) == 0,
        ensures
            final(self).read_count == bump(old(self).read_count),
            final(self).total_access == bump(old(self).total_access),
            final(self).avg_latency_ns == next_avg(old(self).avg_latency_ns, bump(old(self).total_access), latency_ns as usize),
            final(self).route_count == old(self).route_count,
            final(self).write_count == old(self).write_count,
            final(self).active_connections == old(self).active_connections,
    {
        self.read_count = bump_exec(self.read_count);
        self.total_access = bump_exec(self.total_access);
        let new_latency = latency_ns as usize;
        let total = self.total_access;
        let current_avg = self.avg_latency_ns;
        if total != 0 {
            let prev = total - 1;
            assert(current_avg * prev <= usize::MAX) by (nonlinear_arith)
                requires current_avg * prev + new_latency <= usize::MAX, new_latency >= 0;
            let sum = current_avg * prev + new_latency;
            self.avg_latency_ns = sum / total;
        }
    }

    /// Counts a write.
    pub fn record_write(&mut self)
        ensures
            *final(self) == (LockfreeShardMetrics { write_count: bump(old(self).write_count),
                total_access: bump(old(self).total_access), ..*old(self) }),
    {
        self.write_count = bump_exec(self.write_count);
        self.total_access = bump_exec(self.total_access);
    }

    /// One more open connection.
    pub fn increment_active_connections(&mut self)
        ensures
            *final(self) == (LockfreeShardMetrics { active_connections: bump(old(self).active_connections), ..*old(self) }),
    {
        self.active_connections = bump_exec(self.active_connections);
    }

    /// One open connection fewer (wrapping at zero).
    pub fn decrement_active_connections(&mut self)
        ensures
            *final(self) == (LockfreeShardMetrics { active_connections: unbump(old(self).active_connections), ..*old(self) }),
    {
        self.active_connections = unbump_exec(self.active_connections);
    }

    /// A copy of the counters.
    pub fn snapshot(&self) -> (r: ShardMetricsSnapshot)
        ensures
            r == (ShardMetricsSnapshot { route_count: self.route_count, total_access: self.total_access,
                read_count: self.read_count, write_count: self.write_count,
                avg_latency_ns: self.avg_latency_ns, active_connections: self.active_connections }),
    {
        ShardMetricsSnapshot {
            route_count: self.route_count,
            total_access: self.total_access,
            read_count: self.read_count,
            write_count: self.write_count,
            avg_latency_ns: self.avg_latency_ns,
            active_connections: self.active_connections,
        }
    }
}

/// Whether a read of `latency` can be averaged in without overflow (see `record_read`).
pub open spec fn read_fits(m: LockfreeShardMetrics, latency: u64) -> bool {
    m.avg_latency_ns * (bump(m.total_access) as int - 1) + (latency as usize) <= usize::MAX
        || bump(m.total_access) == 0
}

/// A shard of a route table: a radix tree of routes and its load counters.
#[derive(Debug)]
pub struct LockfreeDynamicShard<R> {
    inner: RouteRadixTree<R>,
    metrics: LockfreeShardMetrics,
    id: usize,
}

impl<R> LockfreeDynamicShard<R> {
    /// The shard's invariant.
    pub closed spec fn wf(&self) -> bool {
        self.inner.wf()
    }

    /// The shard's routes.
    pub closed spec fn tree(&self) -> RouteRadixTree<R> {
        self.inner
    }

    /// The shard's counters.
    pub closed spec fn counters(&self) -> LockfreeShardMetrics {
        self.metrics
    }

    /// The shard's id.
    pub closed spec fn shard_id(&self) -> usize {
        self.id
    }

    /// An empty shard with id `id`.
    pub fn new(id: usize) -> (r: Self)
        ensures
            r.wf(),
            r.shard_id() == id,
            forall|p: Seq<char>| #[trigger] r.tree().lookup(p) is None,
            forall|p: Seq<char>| #[trigger] r.tree().names_fit(p),
            r.counters() == (LockfreeShardMetrics { route_count: 0, total_access: 0, read_count: 0,
                write_count: 0, avg_latency_ns: 0, active_connections: 0 }),
    {
        LockfreeDynamicShard { inner: RouteRadixTree::new(), metrics: LockfreeShardMetrics::default(), id }
    }

    /// The shard's id.
    pub fn id(&self) -> (r: usize)
        ensures
            r == self.shard_id(),
    {
        self.id
    }

    /// The number of routes counted into the shard.
    pub fn route_count(&self) -> (r: usize)
        ensures
            r == self.counters().route_count,
    {
        self.metrics.get_route_count()
    }

    /// The shard's counters.
    pub fn metrics(&self) -> (r: &LockfreeShardMetrics)
        ensures
            *r == self.counters(),
    {
        &self.metrics
    }

    /// Stores `route` for `path`; counts the route when `path` found none before, and
    /// counts a write.
    pub fn insert(&mut self, path: &str, route: R)
        requires
            old(self).wf(),
        ensures
            final(self).wf(),
            final(self).shard_id() == old(self).shard_id(),
            no_wildcard(segments(path@)) ==> (final(self).tree().lookup(path@) matches Some((x, _)) && *x == route),
            no_wildcard(segments(path@)) ==> forall|q: Seq<char>| !crate::segment_tree::matches_from(segments(path@), segments(q), 0)
                ==> #[trigger] final(self).tree().lookup(q) == old(self).tree().lookup(q),
            no_wildcard(segments(path@)) && old(self).tree().names_fit(path@) ==> forall|q: Seq<char>|
                crate::segment_tree::matches_from(segments(path@), segments(q), 0) && old(self).tree().lookup(q) is None
                ==> (#[trigger] final(self).tree().lookup(q) matches Some((x, ps)) && *x == route
                    && ps == crate::segment_tree::captures_from(segments(path@), segments(q), 0)),
            final(self).counters() == (LockfreeShardMetrics {
                route_count: if old(self).tree().lookup(path@) is Some { old(self).counters().route_count }
                    else { bump(old(self).counters().route_count) },
                write_count: bump(old(self).counters().write_count),
                total_access: bump(old(self).counters().total_access),
                ..old(self).counters()
            }),
    {
        self.insert_arc(path, Arc::new(route));
    }

    /// Stores the shared `route` for `path`, counting as `insert` does.
    pub fn insert_arc(&mut self, path: &str, route: Arc<R>)
        requires
            old(self).wf(),
        ensures
            final(self).wf(),
            final(self).shard_id() == old(self).shard_id(),
            no_wildcard(segments(path@)) ==> (final(self).tree().lookup(path@) matches Some((x, _)) && x == route),
            no_wildcard(segments(path@)) ==> forall|q: Seq<char>| !crate::segment_tree::matches_from(segments(path@), segments(q), 0)
                ==> #[trigger] final(self).tree().lookup(q) == old(self).tree().lookup(q),
            no_wildcard(segments(path@)) && old(self).tree().names_fit(path@) ==> forall|q: Seq<char>|
                crate::segment_tree::matches_from(segments(path@), segments(q), 0) && old(self).tree().lookup(q) is None
                ==> #[trigger] final(self).tree().lookup(q) == Some((route, crate::segment_tree::captures_from(segments(path@), segments(q), 0))),
            final(self).counters() == (LockfreeShardMetrics {
                route_count: if old(self).tree().lookup(path@) is Some { old(self).counters().route_count }
                    else { bump(old(self).counters().route_count) },
                write_count: bump(old(self).counters().write_count),
                total_access: bump(old(self).counters().total_access),
                ..old(self).counters()
            }),
    {
        let existed = self.inner.contains(path);
        self.inner.insert_arc(path, route);
        if !existed {
            self.metrics.increment_route_count();
        }
        self.metrics.record_write();
    }

    /// Removes the route for `path`; uncounts it when there was one, and counts a write.
    pub fn remove(&mut self, path: &str) -> (r: Option<Arc<R>>)
        requires
            old(self).wf(),
        ensures
            final(self).wf(),
            final(self).shard_id() == old(self).shard_id(),
            r == old(self).tree().removable(path@),
            final(self).tree().route_count() + (if r is Some { 1int } else { 0int }) == old(self).tree().route_count(),
            final(self).counters() == (LockfreeShardMetrics {
                route_count: if r is Some { unbump(old(self).counters().route_count) } else { old(self).counters().route_count },
                write_count: bump(old(self).counters().write_count),
                total_access: bump(old(self).counters().total_access),
                ..old(self).counters()
            }),
    {
        let result = self.inner.remove(path);
        if result.is_some() {
            self.metrics.decrement_route_count();
        }
        self.metrics.record_write();
        result
    }

    /// Looks `path` up, timing the lookup; a successful lookup is counted as a read of that
    /// many nanoseconds (when the running average can take it without overflow, see
    /// `read_fits`; otherwise it is not counted).
    pub fn find(&mut self, path: &str) -> (r: Option<(&Arc<R>, Vec<(String, String)>)>)
        ensures
            final(self).tree() == old(self).tree(),
            final(self).shard_id() == old(self).shard_id(),
            match old(self).tree().lookup(path@) {
                Some((route, ps)) => r matches Some((x, v)) && *x == route && pairs_view(v@) == ps,
                None => r is None,
            },
            old(self).tree().lookup(path@) is None ==> final(self).counters() == old(self).counters(),
            old(self).tree().lookup(path@) is Some ==> final(self).counters() == old(self).counters()
                || (final(self).counters().read_count == bump(old(self).counters().read_count)
                    && final(self).counters().total_access == bump(old(self).counters().total_access)
                    && exists|latency: u64| read_fits(old(self).counters(), latency)
                        && final(self).counters().avg_latency_ns
                            == #[trigger] next_avg(old(self).counters().avg_latency_ns, bump(old(self).counters().total_access), latency as usize)),
    {
        let start = instant_now();
        let result = self.inner.find(path);
        let duration = instant_elapsed(&start);
        if result.is_some() {
            let nanos = duration_as_nanos(&duration);
            let latency = nanos as u64;
            let total = bump_exec(self.metrics.total_access);
            let avg = self.metrics.avg_latency_ns;
            let fits = if total == 0 {
                true
            } else {
                let prev = total - 1;
                avg == 0 || prev <= (usize::MAX - latency as usize) / avg
            };
            if fits {
                proof {
                    if total != 0 && avg != 0 {
                        let prev = total - 1;
                        assert(avg * prev <= usize::MAX - latency as usize) by (nonlinear_arith)
                            requires avg > 0, prev <= (usize::MAX - latency as usize) / avg as int;
                    }
                }
                self.metrics.record_read(latency);
            }
        }
        result
    }

    /// Whether a lookup of `path` finds a route.
    pub fn contains(&self, path: &str) -> (r: bool)
        ensures
            r == self.tree().lookup(path@) is Some,
    {
        self.inner.contains(path)
    }

    /// The paths of the shard's routes.
    pub fn list_paths(&self) -> (r: Vec<String>)
        ensures
            strings_view(r@) == self.tree().paths(),
    {
        self.inner.list_paths()
    }

    /// The paths of the shard's routes, in a vector sized for the counted routes.
    pub fn list_paths_with_capacity(&self) -> (r: Vec<String>)
        ensures
            strings_view(r@) == self.tree().paths(),
    {
        let count = self.route_count();
        let mut paths: Vec<String> = Vec::with_capacity(count);
        let mut listed = self.inner.list_paths();
        paths.append(&mut listed);
        assert(strings_view(paths@) =~= self.tree().paths());
        paths
    }

    /// Removes every route and resets the counters.
    pub fn clear(&mut self)
        ensures
            final(self).wf(),
            final(self).shard_id() == old(self).shard_id(),
            forall|p: Seq<char>| #[trigger] final(self).tree().lookup(p) is None,
            final(self).counters() == (LockfreeShardMetrics { route_count: 0, total_access: 0, read_count: 0,
                write_count: 0, avg_latency_ns: 0, active_connections: 0 }),
    {
        self.inner.clear();
        self.metrics = LockfreeShardMetrics::default();
    }
}

} // verus!

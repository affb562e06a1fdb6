//! The route table: routes spread over sixteen radix trees by the hash of their path, with
//! a counter of the routes added and a cache of recent lookups.
use std::sync::Arc;
use vstd::prelude::*;
use crate::text::{segments, strings_view};
use crate::cache::{RouteCache, has_entry, entry_index, cache_put, cache_drop, live_entries};
use crate::cache_optimized::{no_wildcard, all_static, default_hash, default_hash_of, shard_for, shard_index_for_hash};
use crate::route_radix_tree::RouteRadixTree;
use crate::segment_tree::{matches_from, captures_from, may_name, reach_match};
use crate::cache::duration_from_secs;

verus! {

/// The number of shards.
pub const NUM_SHARDS: usize = 16;

/// How long a cached lookup is served, in seconds.
const CACHE_TTL_SECS: u64 = 60;

/// Lookups answered from the cache, and those that had to search a shard.
#[derive(Debug, Clone, Copy, PartialEq, Eq)]
pub struct CacheStats {
    /// Lookups answered from the cache.
    pub hits: usize,
    /// Lookups that searched a shard.
    pub misses: usize,
}

/// The sum of the counters.
pub open spec fn sum_counts(c: Seq<usize>) -> int
    decreases c.len(),
{
    if c.len() == 0 {
        0
    } else {
        sum_counts(c.drop_last()) + c.last()
    }
}

proof fn lemma_sum_update(c: Seq<usize>, i: int, x: usize)
    requires
        0 <= i < c.len(),
    ensures
        sum_counts(c.update(i, x)) == sum_counts(c) - c[i] + x,
        sum_counts(c) >= c[i],
    decreases c.len(),
{
    let t = c.update(i, x);
    if i == c.len() - 1 {
        assert(t.drop_last() =~= c.drop_last());
        lemma_sum_nonneg(c.drop_last());
    } else {
        assert(t.drop_last() =~= c.drop_last().update(i, x));
        lemma_sum_update(c.drop_last(), i, x);
    }
}

proof fn lemma_sum_nonneg(c: Seq<usize>)
    ensures
        sum_counts(c) >= 0,
    decreases c.len(),
{
    if c.len() > 0 {
        lemma_sum_nonneg(c.drop_last());
    }
}

proof fn lemma_sum_zero(c: Seq<usize>)
    requires
        forall|i: int| 0 <= i < c.len() ==> c[i] == 0,
    ensures
        sum_counts(c) == 0,
    decreases c.len(),
{
    if c.len() > 0 {
        lemma_sum_zero(c.drop_last());
    }
}

/// The paths of the first `n` trees, tree by tree.
pub open spec fn tree_paths<R>(trees: Seq<RouteRadixTree<R>>, n: int) -> Seq<Seq<char>>
    decreases n,
{
    if n <= 0 {
        Seq::empty()
    } else {
        tree_paths(trees, n - 1) + trees[n - 1].paths()
    }
}

/// A route table of sixteen shards, each a radix tree with a counter of the routes added to
/// it, and a cache of looked-up routes by path.
pub struct RouteTable<R> {
    trees: Vec<RouteRadixTree<R>>,
    counts: Vec<usize>,
    count: usize,
    cache: RouteCache<Arc<R>>,
    stats: CacheStats,
}

impl<R> RouteTable<R> {
    /// The table's invariant: sixteen well-formed shards, and a table counter that is the
    /// sum of the shard counters.
    pub closed spec fn wf(&self) -> bool {
        &&& self.trees@.len() == NUM_SHARDS
        &&& self.counts@.len() == NUM_SHARDS
        &&& forall|i: int| 0 <= i < self.trees@.len() ==> (#[trigger] self.trees@[i]).wf()
        &&& self.count == sum_counts(self.counts@)
    }

    /// A well-formed table has one well-formed tree per shard.
    pub proof fn lemma_trees_wf(&self)
        requires
            self.wf(),
        ensures
            self.trees().len() == NUM_SHARDS,
            forall|i: int| 0 <= i < NUM_SHARDS ==> (#[trigger] self.trees()[i]).wf(),
    {
    }

    /// The shards' trees.
    pub closed spec fn trees(&self) -> Seq<RouteRadixTree<R>> {
        self.trees@
    }

    /// The shards' route counters.
    pub closed spec fn counts(&self) -> Seq<usize> {
        self.counts@
    }

    /// The table's route counter.
    pub closed spec fn counter(&self) -> usize {
        self.count
    }

    /// The cached routes by path, in the order they were cached.
    pub closed spec fn cached(&self) -> Seq<(Seq<char>, Arc<R>)> {
        self.cache.entries()
    }

    /// The cache hit and miss counters.
    pub closed spec fn cache_counters(&self) -> CacheStats {
        self.stats
    }

    /// The time to live of cached lookups, in nanoseconds.
    pub closed spec fn cache_ttl_nanos(&self) -> u128 {
        self.cache.ttl_nanos()
    }

    /// The shard that `path` hashes to.
    pub open spec fn home_shard(path: Seq<char>) -> int {
        shard_for(default_hash_of(path), NUM_SHARDS)
    }

    /// What a lookup of `path` in its shard finds: the route and the captured parameters.
    pub open spec fn lookup(&self, path: Seq<char>) -> Option<(Arc<R>, Seq<(Seq<char>, Seq<char>)>)> {
        self.trees()[Self::home_shard(path)].lookup(path)
    }

    /// The route a lookup of `path` in its shard finds.
    pub open spec fn answer(&self, path: Seq<char>) -> Option<Arc<R>> {
        match self.lookup(path) {
            Some((route, _)) => Some(route),
            None => None,
        }
    }

    /// Whether every shard counter covers the routes in its tree, so that removals never
    /// take a counter below zero.
    pub open spec fn counts_cover(&self) -> bool {
        forall|i: int| 0 <= i < self.trees().len() ==> (#[trigger] self.trees()[i]).route_count() <= self.counts()[i]
    }

    /// What storing `route` for `path` does: only the home shard changes, and it then finds
    /// `route` for `path`, and a removal of `path` takes `route` out, when `path` has no
    /// wildcard segment (with no parameters when all segments are literal); the shard and
    /// table counters count the route when a lookup found none before; the cached lookup of
    /// `path` is dropped; the hit and miss counters stay.
    pub open spec fn inserted(before: Self, after: Self, path: Seq<char>, route: R) -> bool {
        let h = Self::home_shard(path);
        let added: int = if before.lookup(path) is Some { 0 } else { 1 };
        &&& after.wf()
        &&& forall|i: int| 0 <= i < NUM_SHARDS && i != h ==> #[trigger] after.trees()[i] == before.trees()[i]
        &&& after.counts() == before.counts().update(h, (before.counts()[h] + added) as usize)
        &&& after.counter() == before.counter() + added
        &&& no_wildcard(segments(path)) ==> (after.lookup(path) matches Some((x, _)) && *x == route)
        &&& no_wildcard(segments(path)) ==> (after.trees()[h].removable(path) matches Some(x) && *x == route)
        &&& all_static(segments(path)) ==> (after.lookup(path) matches Some((x, ps)) && *x == route
            && ps == Seq::<(Seq<char>, Seq<char>)>::empty())
        &&& no_wildcard(segments(path)) ==> forall|q: Seq<char>|
            Self::home_shard(q) != h || !matches_from(segments(path), segments(q), 0)
            ==> #[trigger] after.lookup(q) == before.lookup(q)
        &&& no_wildcard(segments(path)) ==> forall|q: Seq<char>|
            Self::home_shard(q) == h && matches_from(segments(path), segments(q), 0)
            ==> (#[trigger] after.lookup(q)) is Some
        &&& no_wildcard(segments(path)) && before.trees()[h].names_fit(path) ==> forall|q: Seq<char>|
            Self::home_shard(q) == h && matches_from(segments(path), segments(q), 0) && before.lookup(q) is None
            ==> (#[trigger] after.lookup(q) matches Some((x, ps)) && *x == route
                && ps == captures_from(segments(path), segments(q), 0))
        &&& after.cached() == cache_drop(before.cached(), path)
        &&& !has_entry(after.cached(), path)
        &&& after.cache_counters() == before.cache_counters()
    }

    /// An empty table.
    pub fn new() -> (t: Self)
        ensures
            t.wf(),
            t.counter() == 0,
            forall|i: int| 0 <= i < NUM_SHARDS ==> #[trigger] t.counts()[i] == 0 && t.trees()[i].route_count() == 0
                && t.trees()[i].paths() == Seq::<Seq<char>>::empty(),
            forall|i: int, p: Seq<char>| 0 <= i < NUM_SHARDS ==> #[trigger] t.trees()[i].lookup(p) is None,
            forall|i: int, p: Seq<char>| 0 <= i < NUM_SHARDS ==> #[trigger] t.trees()[i].names_fit(p),
            forall|p: Seq<char>| #[trigger] t.lookup(p) is None,
            t.cached() == Seq::<(Seq<char>, Arc<R>)>::empty(),
            t.cache_counters() == (CacheStats { hits: 0, misses: 0 }),
            t.counts_cover(),
    {
        let mut trees: Vec<RouteRadixTree<R>> = Vec::new();
        let mut counts: Vec<usize> = Vec::new();
        let mut i: usize = 0;
        while i < NUM_SHARDS
            invariant
                i <= NUM_SHARDS,
                trees@.len() == i,
                counts@.len() == i,
                forall|j: int| 0 <= j < i ==> (#[trigger] trees@[j]).wf()
                    && trees@[j].route_count() == 0 && trees@[j].paths() == Seq::<Seq<char>>::empty(),
                forall|j: int| 0 <= j < i ==> #[trigger] counts@[j] == 0,
                forall|j: int, p: Seq<char>| 0 <= j < i ==> #[trigger] trees@[j].lookup(p) is None,
                forall|j: int, p: Seq<char>| 0 <= j < i ==> #[trigger] trees@[j].names_fit(p),
            decreases NUM_SHARDS - i,
        {
            trees.push(RouteRadixTree::new());
            counts.push(0);
            i = i + 1;
        }
        proof {
            lemma_sum_zero(counts@);
        }
        let t = RouteTable {
            trees,
            counts,
            count: 0,
            cache: RouteCache::new(duration_from_secs(CACHE_TTL_SECS)),
            stats: CacheStats { hits: 0, misses: 0 },
        };
        assert forall|i: int| 0 <= i < NUM_SHARDS implies #[trigger] t.counts()[i] == 0 && t.trees()[i].route_count() == 0
            && t.trees()[i].paths() == Seq::<Seq<char>>::empty() by {
            assert(t.trees@[i].wf());
        }
        assert forall|p: Seq<char>| #[trigger] t.lookup(p) is None by {
            assert(t.trees()[Self::home_shard(p)].lookup(p) is None);
        }
        t
    }

    /// The shard that `path` hashes to.
    fn shard_index(path: &str) -> (r: usize)
        ensures
            r == Self::home_shard(path@),
            r < NUM_SHARDS,
    {
        let h = default_hash(path);
        shard_index_for_hash(h, NUM_SHARDS)
    }

    /// Stores `route` for `path` in its shard (replacing a route stored for the same path),
    /// counts it when a lookup of `path` found no route before, and drops the cached lookup
    /// of `path`.
    pub fn insert(&mut self, path: String, route: R)
        requires
            old(self).wf(),
            old(self).counter() < usize::MAX,
        ensures
            Self::inserted(*old(self), *final(self), path@, route),
    {
        let h = Self::shard_index(path.as_str());
        let ghost old_trees = self.trees@;
        let ghost old_counts = self.counts@;
        assert(old_trees[h as int].wf());
        let existed = self.trees[h].contains(path.as_str());
        self.trees[h].insert(path.as_str(), route);
        proof {
            assert(self.trees@ == old_trees.update(h as int, self.trees@[h as int]));
            assert forall|i: int| 0 <= i < self.trees@.len() implies (#[trigger] self.trees@[i]).wf() by {
                if i != h {
                    assert(self.trees@[i] == old_trees[i]);
                }
            }
        }
        if !existed {
            proof { lemma_sum_update(old_counts, h as int, (old_counts[h as int] + 1) as usize); }
            let c = self.counts[h];
            self.counts.set(h, c + 1);
            self.count = self.count + 1;
        } else {
            assert(old_counts.update(h as int, old_counts[h as int]) =~= old_counts);
        }
        self.cache.remove(path.as_str());
    }

    /// Removes the route stored for `path` from its shard; true when there was one, which is
    /// then uncounted. The cached lookup of `path` is dropped either way.
    pub fn remove(&mut self, path: &str) -> (r: bool)
        requires
            old(self).wf(),
            old(self).counts_cover() || forall|i: int| 0 <= i < NUM_SHARDS
                ==> (#[trigger] old(self).trees()[i]).removable(path@) is Some ==> old(self).counts()[i] > 0,
        ensures
            final(self).wf(),
            ({
                let h = Self::home_shard(path@);
                &&& r == old(self).trees()[h].removable(path@) is Some
                &&& forall|i: int| 0 <= i < NUM_SHARDS && i != h ==> #[trigger] final(self).trees()[i] == old(self).trees()[i]
                &&& final(self).trees()[h].route_count() + (if r { 1int } else { 0int }) == old(self).trees()[h].route_count()
                &&& !r ==> final(self).trees()[h].removable(path@) is None
                &&& forall|q: Seq<char>| !r || !may_name(segments(path@), segments(q), 0)
                    ==> #[trigger] final(self).trees()[h].stored_route(q) == old(self).trees()[h].stored_route(q)
                &&& all_static(segments(path@)) && old(self).trees()[h].stored_route(path@) is Some
                    ==> r && final(self).trees()[h].stored_route(path@) is None
                &&& forall|q: Seq<char>| #[trigger] final(self).trees()[h].stored_route(q) == old(self).trees()[h].stored_route(q)
                    || final(self).trees()[h].stored_route(q) is None
                &&& forall|q: Seq<char>| old(self).trees()[h].lookup(q) is None ==> #[trigger] final(self).trees()[h].lookup(q) is None
                &&& all_static(segments(path@)) && old(self).trees()[h].stored_route(path@) is Some
                    && (forall|q: Seq<char>| #[trigger] old(self).trees()[h].stored_route(q) is Some && segments(q) != segments(path@)
                        ==> !reach_match(segments(q), segments(path@), 0))
                    ==> final(self).trees()[h].lookup(path@) is None
                &&& forall|q: Seq<char>| old(self).trees()[h].lookup(q) matches Some((x, _)) && (!r || old(self).trees()[h].removable(path@) != Some(x))
                    ==> #[trigger] final(self).trees()[h].lookup(q) is Some
                &&& final(self).counts() == old(self).counts().update(h, (old(self).counts()[h] - if r { 1int } else { 0int }) as usize)
            }),
            final(self).counter() == old(self).counter() - if r { 1int } else { 0int },
            old(self).counts_cover() ==> final(self).counts_cover(),
            final(self).cached() == cache_drop(old(self).cached(), path@),
            !has_entry(final(self).cached(), path@),
            final(self).cache_counters() == old(self).cache_counters(),
    {
        let h = Self::shard_index(path);
        let ghost old_trees = self.trees@;
        let ghost old_counts = self.counts@;
        assert(old_trees[h as int].wf());
        let removed = self.trees[h].remove(path).is_some();
        proof {
            assert(self.trees@ == old_trees.update(h as int, self.trees@[h as int]));
            assert forall|i: int| 0 <= i < self.trees@.len() implies (#[trigger] self.trees@[i]).wf() by {
                if i != h {
                    assert(self.trees@[i] == old_trees[i]);
                }
            }
        }
        if removed {
            proof { lemma_sum_update(old_counts, h as int, (old_counts[h as int] - 1) as usize); }
            let c = self.counts[h];
            self.counts.set(h, c - 1);
            self.count = self.count - 1;
        } else {
            assert(old_counts.update(h as int, old_counts[h as int]) =~= old_counts);
        }
        self.cache.remove(path);
        removed
    }

    /// How a lookup of `path` that gave `r` left the table: either it was answered from
    /// the cache with a clone of the cached route, the cache holding an entry for `path`, or
    /// the cached entry was missing or out of date and the shard was searched, and what it
    /// found was cached.
    pub open spec fn looked_up(before: Self, after: Self, path: Seq<char>, r: Option<Arc<R>>) -> bool {
        let c = before.cached();
        let s = before.cache_counters();
        let from_cache = has_entry(c, path) && (r matches Some(x) && cloned(c[entry_index(c, path)].1, x))
            && after.cached() == c
            && after.cache_counters() == (CacheStats { hits: (s.hits + 1) as usize, misses: s.misses });
        let searched = r == before.answer(path)
            && after.cache_counters() == (CacheStats { hits: s.hits, misses: (s.misses + 1) as usize })
            && after.cached() == match before.answer(path) {
                Some(a) => cache_put(cache_drop(c, path), path, a),
                None => cache_drop(c, path),
            };
        &&& after.wf()
        &&& after.trees() == before.trees()
        &&& after.counts() == before.counts()
        &&& after.counter() == before.counter()
        &&& from_cache || searched
        &&& !has_entry(c, path) ==> searched
    }

    /// The cache after `paths[..n]` were looked up in turn and each route found was cached.
    pub open spec fn warmed(&self, c: Seq<(Seq<char>, Arc<R>)>, paths: Seq<Seq<char>>, n: int) -> Seq<(Seq<char>, Arc<R>)>
        decreases n,
    {
        if n <= 0 {
            c
        } else {
            let prev = self.warmed(c, paths, n - 1);
            match self.answer(paths[n - 1]) {
                Some(a) => cache_put(prev, paths[n - 1], a),
                None => prev,
            }
        }
    }

    /// The route for `path`: the cached one while it lasts, else the one its shard finds,
    /// which is then cached. Counts a cache hit or miss.
    pub fn get_arc(&mut self, path: &str) -> (r: Option<Arc<R>>)
        requires
            old(self).wf(),
            old(self).cache_counters().hits < usize::MAX,
            old(self).cache_counters().misses < usize::MAX,
        ensures
            Self::looked_up(*old(self), *final(self), path@, r),
    {
        let ghost c = self.cache.entries();
        let ghost before = *self;
        let cached = self.cache.get(path);
        match cached {
            Some(route) => {
                assert(has_entry(c, path@));
                self.stats.hits = self.stats.hits + 1;
                Some(route)
            },
            None => {
                assert(self.cache.entries() == cache_drop(c, path@));
                self.stats.misses = self.stats.misses + 1;
                let h = Self::shard_index(path);
                let shared: Option<Arc<R>> = match self.trees[h].find(path) {
                    Some((route, _)) => Some(route.clone()),
                    None => None,
                };
                assert(shared == before.answer(path@));
                match shared {
                    Some(route) => {
                        self.cache.insert(path, route.clone());
                        Some(route)
                    },
                    None => None,
                }
            },
        }
    }

    /// Applies `f` to the route for `path`, looked up as `get_arc` does.
    pub fn get_with<F, T>(&mut self, path: &str, f: F) -> (r: Option<T>)
        where
            F: FnOnce(&Arc<R>) -> T,
        requires
            old(self).wf(),
            old(self).cache_counters().hits < usize::MAX,
            old(self).cache_counters().misses < usize::MAX,
            forall|a: &Arc<R>| #[trigger] f.requires((a,)),
        ensures
            exists|found: Option<Arc<R>>| #[trigger] Self::looked_up(*old(self), *final(self), path@, found)
                && match found {
                    Some(a) => r matches Some(t) && f.ensures((&a,), t),
                    None => r is None,
                },
    {
        let found = self.get_arc(path);
        match found {
            Some(route) => {
                let t = f(&route);
                Some(t)
            },
            None => None,
        }
    }

    /// The cache hit and miss counters.
    pub fn cache_stats(&self) -> (r: CacheStats)
        ensures
            r == self.cache_counters(),
    {
        self.stats
    }

    /// Sets the cache hit and miss counters to zero.
    pub fn reset_cache_stats(&mut self)
        requires
            old(self).wf(),
        ensures
            final(self).wf(),
            final(self).trees() == old(self).trees(),
            final(self).counts() == old(self).counts(),
            final(self).counter() == old(self).counter(),
            final(self).cached() == old(self).cached(),
            final(self).cache_counters() == (CacheStats { hits: 0, misses: 0 }),
    {
        self.stats = CacheStats { hits: 0, misses: 0 };
    }

    /// Drops the cached lookups whose time has passed: given their ages read from the clock,
    /// exactly the younger ones stay, in order.
    pub fn cleanup_cache(&mut self)
        requires
            old(self).wf(),
        ensures
            final(self).wf(),
            final(self).trees() == old(self).trees(),
            final(self).counts() == old(self).counts(),
            final(self).counter() == old(self).counter(),
            final(self).cache_counters() == old(self).cache_counters(),
            exists|elapsed: Seq<u128>| elapsed.len() == old(self).cached().len()
                && final(self).cached() == live_entries(old(self).cached(), elapsed, old(self).cache_ttl_nanos(), 0),
            final(self).cache_ttl_nanos() == old(self).cache_ttl_nanos(),
    {
        self.cache.cleanup_expired();
    }

    /// Looks each of `paths` up in its shard, in order, and caches each route found.
    pub fn warmup_cache(&mut self, paths: &[&str])
        requires
            old(self).wf(),
        ensures
            final(self).wf(),
            final(self).trees() == old(self).trees(),
            final(self).counts() == old(self).counts(),
            final(self).counter() == old(self).counter(),
            final(self).cache_counters() == old(self).cache_counters(),
            final(self).cached() == old(self).warmed(old(self).cached(),
                paths@.map_values(|p: &str| p@), paths@.len() as int),
    {
        let ghost ps = paths@.map_values(|p: &str| p@);
        let ghost c0 = self.cache.entries();
        let mut i: usize = 0;
        while i < paths.len()
            invariant
                self.wf(),
                self.trees@ == old(self).trees@,
                self.counts@ == old(self).counts@,
                self.count == old(self).count,
                self.stats == old(self).stats,
                ps == paths@.map_values(|p: &str| p@),
                c0 == old(self).cached(),
                i <= paths@.len(),
                self.cache.entries() == old(self).warmed(c0, ps, i as int),
            decreases paths@.len() - i,
        {
            let path: &str = paths[i];
            assert(path@ == ps[i as int]);
            let h = Self::shard_index(path);
            let shared: Option<Arc<R>> = match self.trees[h].find(path) {
                Some((route, _)) => Some(route.clone()),
                None => None,
            };
            match shared {
                Some(route) => {
                    self.cache.insert(path, route);
                },
                None => {},
            }
            i = i + 1;
        }
    }

    /// Stores `route` for `path` in its shard and counts it as `insert` does, without
    /// touching the cache.
    fn store(&mut self, path: &str, route: R)
        requires
            old(self).wf(),
            old(self).counter() < usize::MAX,
        ensures
            final(self).wf(),
            final(self).counter() == old(self).counter() + if old(self).lookup(path@) is Some { 0int } else { 1int },
            no_wildcard(segments(path@)) ==> (final(self).lookup(path@) matches Some((x, _)) && *x == route),
            final(self).cached() == old(self).cached(),
            final(self).cache_counters() == old(self).cache_counters(),
    {
        let h = Self::shard_index(path);
        let ghost old_trees = self.trees@;
        let ghost old_counts = self.counts@;
        assert(old_trees[h as int].wf());
        let existed = self.trees[h].contains(path);
        self.trees[h].insert(path, route);
        proof {
            assert(self.trees@ == old_trees.update(h as int, self.trees@[h as int]));
            assert forall|i: int| 0 <= i < self.trees@.len() implies (#[trigger] self.trees@[i]).wf() by {
                if i != h {
                    assert(self.trees@[i] == old_trees[i]);
                }
            }
        }
        if !existed {
            proof { lemma_sum_update(old_counts, h as int, (old_counts[h as int] + 1) as usize); }
            let c = self.counts[h];
            self.counts.set(h, c + 1);
            self.count = self.count + 1;
        }
    }

    /// Stores each of `routes` in turn as `insert` does, counting the new ones, but leaves
    /// the cache as it is.
    pub fn batch_insert(&mut self, routes: Vec<(String, R)>)
        requires
            old(self).wf(),
            old(self).counter() + routes@.len() <= usize::MAX,
        ensures
            final(self).wf(),
            old(self).counter() <= final(self).counter() <= old(self).counter() + routes@.len(),
            routes@.len() > 0 && no_wildcard(segments(routes@.last().0@)) ==> (final(self).lookup(routes@.last().0@)
                matches Some((x, _)) && *x == routes@.last().1),
            final(self).cached() == old(self).cached(),
            final(self).cache_counters() == old(self).cache_counters(),
    {
        let ghost all = routes@;
        let mut rest = routes;
        let mut i: usize = 0;
        let n = rest.len();
        while rest.len() > 0
            invariant
                self.wf(),
                n == all.len(),
                i + rest@.len() == n,
                rest@ == all.subrange(i as int, n as int),
                old(self).counter() <= self.counter() <= old(self).counter() + i,
                old(self).counter() + n <= usize::MAX,
                self.cached() == old(self).cached(),
                self.cache_counters() == old(self).cache_counters(),
                i > 0 && no_wildcard(segments(all[i - 1].0@)) ==> (self.lookup(all[i - 1].0@)
                    matches Some((x, _)) && *x == all[i - 1].1),
            decreases rest@.len(),
        {
            let (path, route) = rest.remove(0);
            assert(all[i as int] == (path, route));
            self.store(path.as_str(), route);
            i = i + 1;
            assert(rest@ =~= all.subrange(i as int, n as int));
        }
    }

    /// The route for `path`, looked up as `get_arc` does, cloned out of its `Arc`.
    pub fn get_clone(&mut self, path: &str) -> (r: Option<R>)
        where
            R: Clone,
        requires
            old(self).wf(),
            old(self).cache_counters().hits < usize::MAX,
            old(self).cache_counters().misses < usize::MAX,
        ensures
            exists|found: Option<Arc<R>>| #[trigger] Self::looked_up(*old(self), *final(self), path@, found)
                && match found {
                    Some(a) => r matches Some(v) && cloned(*a, v),
                    None => r is None,
                },
    {
        let found = self.get_arc(path);
        match found {
            Some(route) => {
                let v = (*route).clone();
                Some(v)
            },
            None => None,
        }
    }

    /// The paths of every shard's routes, shard by shard.
    pub fn list_paths(&self) -> (r: Vec<String>)
        requires
            self.wf(),
        ensures
            strings_view(r@) == tree_paths(self.trees(), NUM_SHARDS as int),
    {
        let mut paths: Vec<String> = Vec::new();
        let mut i: usize = 0;
        assert(strings_view(paths@) =~= tree_paths(self.trees@, 0));
        while i < NUM_SHARDS
            invariant
                self.wf(),
                i <= NUM_SHARDS,
                strings_view(paths@) == tree_paths(self.trees@, i as int),
            decreases NUM_SHARDS - i,
        {
            let mut more = self.trees[i].list_paths();
            let ghost before = paths@;
            paths.append(&mut more);
            assert(strings_view(paths@) =~= strings_view(before) + self.trees@[i as int].paths());
            i = i + 1;
        }
        paths
    }

    /// Removes every route, sets the counters to zero and empties the cache; the cache hit
    /// and miss counters are kept.
    pub fn clear(&mut self)
        requires
            old(self).wf(),
        ensures
            final(self).wf(),
            final(self).counter() == 0,
            forall|i: int| 0 <= i < NUM_SHARDS ==> #[trigger] final(self).counts()[i] == 0
                && final(self).trees()[i].route_count() == 0
                && final(self).trees()[i].paths() == Seq::<Seq<char>>::empty(),
            forall|p: Seq<char>| #[trigger] final(self).lookup(p) is None,
            final(self).cached() == Seq::<(Seq<char>, Arc<R>)>::empty(),
            final(self).cache_counters() == old(self).cache_counters(),
            final(self).counts_cover(),
    {
        let stats = self.stats;
        *self = Self::new();
        self.stats = stats;
    }

    /// The table's route counter.
    pub fn count(&self) -> (r: usize)
        ensures
            r == self.counter(),
    {
        self.count
    }

    /// Whether a lookup of `path` in its shard finds a route (the cache is not consulted).
    pub fn contains(&self, path: &str) -> (r: bool)
        requires
            self.wf(),
        ensures
            r == self.lookup(path@) is Some,
    {
        let h = Self::shard_index(path);
        self.trees[h].contains(path)
    }
}

impl<R> Default for RouteTable<R> {
    fn default() -> (t: Self)
        ensures
            t.wf(),
            t.counter() == 0,
            forall|p: Seq<char>| #[trigger] t.lookup(p) is None,
            t.cached() == Seq::<(Seq<char>, Arc<R>)>::empty(),
            t.cache_counters() == (CacheStats { hits: 0, misses: 0 }),
    {
        Self::new()
    }
}

/// Reading back a write: once `route` is stored for a path without wildcard segments, the
/// next lookup of that path gives `route`, since the insert dropped the path's cached entry.
pub proof fn lemma_lookup_after_insert<R>(t0: RouteTable<R>, t1: RouteTable<R>, t2: RouteTable<R>,
    path: Seq<char>, route: R, r: Option<Arc<R>>)
    requires
        RouteTable::inserted(t0, t1, path, route),
        no_wildcard(segments(path)),
        RouteTable::looked_up(t1, t2, path, r),
    ensures
        r matches Some(x) && *x == route,
{
}

/// Storing twice for the same path without wildcard segments counts the route once: the
/// second insert finds the first route and adds nothing to the counter.
pub proof fn lemma_overwrite_counts_once<R>(t0: RouteTable<R>, t1: RouteTable<R>, t2: RouteTable<R>,
    path: Seq<char>, first: R, second: R)
    requires
        RouteTable::inserted(t0, t1, path, first),
        RouteTable::inserted(t1, t2, path, second),
        no_wildcard(segments(path)),
    ensures
        t2.counter() == t1.counter(),
        t2.lookup(path) matches Some((x, _)) && *x == second,
{
}

/// Removing what was written: once `route` is stored for a path without wildcard segments,
/// a removal of that path from its shard takes `route` out.
pub proof fn lemma_remove_after_insert<R>(t0: RouteTable<R>, t1: RouteTable<R>, path: Seq<char>, route: R)
    requires
        RouteTable::inserted(t0, t1, path, route),
        no_wildcard(segments(path)),
    ensures
        t1.trees()[RouteTable::<R>::home_shard(path)].removable(path) matches Some(x) && *x == route,
{
}

} // verus!

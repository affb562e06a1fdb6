//! A route table over a shard manager: routes go to the shard their path hashes to, or to
//! the shard the manager's strategy picks.
use std::sync::Arc;
use vstd::prelude::*;
use crate::text::{segments, strings_view, bump};
use crate::lockfree_shard::unbump;
use crate::cache_optimized::{no_wildcard, pairs_view, default_hash_of, shard_for};
use crate::segment_tree::same_position;
use crate::dynamic_sharding::{DynamicShard, DynamicShardManager, DynamicShardingConfig, LoadBalanceStrategy,
    ShardMetrics, least_index, has_room, moves, names_one_of};

verus! {

/// How a dynamic route table is set up.
#[derive(Debug, Clone, Copy)]
pub struct DynamicRouteTableConfig {
    /// The shard manager's settings.
    pub sharding: DynamicShardingConfig,
    /// Whether a new route goes to the shard its path hashes to (else the strategy picks).
    pub use_hash_distribution: bool,
}

impl Default for DynamicRouteTableConfig {
    fn default() -> (r: Self)
        ensures
            r.sharding.initial_shards == 8 && r.sharding.min_shards == 2 && r.sharding.max_shards == 64
                && r.sharding.strategy == LoadBalanceStrategy::Comprehensive && r.sharding.auto_rebalance,
            r.use_hash_distribution,
    {
        DynamicRouteTableConfig { sharding: DynamicShardingConfig::default(), use_hash_distribution: true }
    }
}

/// Whether every counter of shard `s` can count one more event.
pub open spec fn can_count<R>(s: DynamicShard<R>) -> bool {
    &&& s.counters().route_count < usize::MAX
    &&& s.counters().write_count < usize::MAX
    &&& s.counters().read_count < usize::MAX
    &&& s.counters().total_access < usize::MAX
}

/// Whether every counter of shard `s` can count `n` more events.
pub open spec fn can_count_many<R>(s: DynamicShard<R>, n: nat) -> bool {
    &&& s.counters().route_count + n <= usize::MAX
    &&& s.counters().write_count + n <= usize::MAX
    &&& s.counters().read_count + n <= usize::MAX
    &&& s.counters().total_access + n <= usize::MAX
}

/// The turn counter advanced `k` times.
pub open spec fn turn_plus(t: usize, k: nat) -> usize
    decreases k,
{
    if k == 0 { t } else { bump(turn_plus(t, (k - 1) as nat)) }
}

/// Whether a route of `routes` after the `k`-th and before the `m`-th names the same
/// position as the `k`-th (and so replaces it where both land in one shard).
pub open spec fn renamed_later<R>(routes: Seq<(String, R)>, k: int, m: int) -> bool {
    exists|j: int| k < j < m && same_position(segments(routes[j].0@), segments(routes[k].0@), 0)
}

/// `i` is the first position of the smallest of the first `n` elements of `v`.
spec fn prefix_first_min(v: Seq<usize>, n: int, i: int) -> bool {
    &&& 0 <= i < n
    &&& forall|j: int| 0 <= j < n ==> v[i] <= #[trigger] v[j]
    &&& forall|j: int| 0 <= j < i ==> v[i] < #[trigger] v[j]
}

/// A non-empty list has a first smallest element.
proof fn lemma_least_index_range(v: Seq<usize>)
    requires
        v.len() > 0,
    ensures
        0 <= least_index(v) < v.len(),
{
    lemma_first_min_prefix(v, v.len() as int);
    let i = choose|i: int| #[trigger] prefix_first_min(v, v.len() as int, i);
    assert(crate::dynamic_sharding::is_first_min(v, i));
}

proof fn lemma_first_min_prefix(v: Seq<usize>, n: int)
    requires
        1 <= n <= v.len(),
    ensures
        exists|i: int| #[trigger] prefix_first_min(v, n, i),
    decreases n,
{
    if n == 1 {
        assert(prefix_first_min(v, n, 0));
    } else {
        lemma_first_min_prefix(v, n - 1);
        let i = choose|i: int| #[trigger] prefix_first_min(v, n - 1, i);
        if v[n - 1] < v[i] {
            assert(prefix_first_min(v, n, n - 1));
        } else {
            assert(prefix_first_min(v, n, i));
        }
    }
}

/// A path names its own position.
proof fn lemma_same_position_refl(p: Seq<Seq<char>>)
    ensures
        same_position(p, p, 0),
{
}

/// Where a batch stored in `t` by hash or by turn puts its `k`-th route: the shard its
/// path hashes to, or the shard the turn counter names after `k` earlier routes.
pub open spec fn batch_target<R>(t: DynamicRouteTable<R>, routes: Seq<(String, R)>, k: int) -> int {
    if t.hashes() {
        t.home_shard(routes[k].0@)
    } else {
        turn_plus(t.turn(), k as nat) as int % t.shards().len() as int
    }
}

/// How many of the first `m` routes of such a batch go to shard `s`.
pub open spec fn sent_to<R>(t: DynamicRouteTable<R>, routes: Seq<(String, R)>, m: int, s: int) -> nat
    decreases m,
{
    if m <= 0 { 0 } else { sent_to(t, routes, m - 1, s) + if batch_target(t, routes, m - 1) == s { 1nat } else { 0nat } }
}

/// The paths of the first `n` shards, shard by shard.
pub open spec fn shard_paths<R>(shards: Seq<DynamicShard<R>>, n: int) -> Seq<Seq<char>>
    decreases n,
{
    if n <= 0 {
        Seq::empty()
    } else {
        shard_paths(shards, n - 1) + shards[n - 1].tree().paths()
    }
}

/// A route table whose shards a manager keeps, with their load counters.
pub struct DynamicRouteTable<R> {
    manager: DynamicShardManager<R>,
    config: DynamicRouteTableConfig,
}

impl<R> DynamicRouteTable<R> {
    /// The table's invariant: the manager's.
    pub closed spec fn wf(&self) -> bool {
        self.manager.wf()
    }

    /// The shards.
    pub closed spec fn shards(&self) -> Seq<DynamicShard<R>> {
        self.manager.shard_list()
    }

    /// The manager's route counter.
    pub closed spec fn counter(&self) -> usize {
        self.manager.route_counter()
    }

    /// The manager's settings.
    pub closed spec fn sharding(&self) -> DynamicShardingConfig {
        self.manager.settings()
    }

    /// The manager's next round-robin position.
    pub closed spec fn turn(&self) -> usize {
        self.manager.turn()
    }

    /// Whether new routes go to the shard their path hashes to.
    pub closed spec fn hashes(&self) -> bool {
        self.config.use_hash_distribution
    }

    /// The shard that `path` hashes to.
    pub open spec fn home_shard(&self, path: Seq<char>) -> int {
        shard_for(default_hash_of(path), self.shards().len() as usize)
    }

    /// Whether the shard of each new route follows from the table alone: by its path's
    /// hash, or by the turn counter (round robin).
    pub open spec fn places_by_turn(&self) -> bool {
        self.hashes() || self.sharding().strategy == LoadBalanceStrategy::RoundRobin
    }

    /// Whether every shard's counters can count one more event.
    pub open spec fn counters_fit(&self) -> bool {
        forall|i: int| 0 <= i < self.shards().len() ==> can_count(#[trigger] self.shards()[i])
    }

    /// What storing `route` for `path` in shard `idx` did: nothing when there is no such
    /// shard; else only that shard changed, it finds `route` for `path` when `path` has no
    /// wildcard segment, it counted a write (and the route, when a lookup found none before),
    /// and so did the manager's route counter.
    pub open spec fn stored(before: Self, after: Self, idx: int, path: Seq<char>, route: R) -> bool {
        let n = before.shards().len();
        &&& after.wf()
        &&& after.shards().len() == n
        &&& after.sharding() == before.sharding()
        &&& after.hashes() == before.hashes()
        &&& if 0 <= idx < n {
            let old_shard = before.shards()[idx];
            let new_shard = after.shards()[idx];
            let fresh = old_shard.tree().lookup(path) is None;
            &&& forall|i: int| 0 <= i < n && i != idx ==> #[trigger] after.shards()[i] == before.shards()[i]
            &&& new_shard.shard_id() == old_shard.shard_id()
            &&& no_wildcard(segments(path)) ==> (new_shard.tree().lookup(path) matches Some((x, _)) && *x == route)
            &&& forall|q: Seq<char>| same_position(segments(path), segments(q), 0)
                ==> (#[trigger] new_shard.tree().stored_route(q) matches Some(x) && *x == route)
            &&& forall|q: Seq<char>| !same_position(segments(path), segments(q), 0)
                ==> #[trigger] new_shard.tree().stored_route(q) == old_shard.tree().stored_route(q)
            &&& new_shard.counters().route_count == old_shard.counters().route_count + if fresh { 1int } else { 0int }
            &&& new_shard.counters().write_count == old_shard.counters().write_count + 1
            &&& new_shard.counters().total_access == old_shard.counters().total_access + 1
            &&& new_shard.counters().read_count == old_shard.counters().read_count
            &&& after.counter() == if fresh { bump(before.counter()) } else { before.counter() }
        } else {
            &&& after.shards() == before.shards()
            &&& after.counter() == before.counter()
        }
    }

    /// A table with the manager set up from `config.sharding`.
    pub fn new(config: DynamicRouteTableConfig) -> (t: Self)
        ensures
            t.wf(),
            t.sharding() == config.sharding,
            t.hashes() == config.use_hash_distribution,
            t.shards().len() == if config.sharding.initial_shards >= config.sharding.min_shards {
                config.sharding.initial_shards
            } else {
                config.sharding.min_shards
            },
            forall|i: int| 0 <= i < t.shards().len() ==> (#[trigger] t.shards()[i]).shard_id() == i
                && t.shards()[i].counters().route_count == 0,
            t.counter() == 0,
            t.turn() == 0,
    {
        DynamicRouteTable { manager: DynamicShardManager::new(config.sharding), config }
    }

    /// A table with the default settings: eight shards, routes placed by hash.
    pub fn default_config() -> (t: Self)
        ensures
            t.wf(),
            t.shards().len() == 8,
            t.hashes(),
            t.sharding().strategy == LoadBalanceStrategy::Comprehensive,
            t.counter() == 0,
    {
        Self::new(DynamicRouteTableConfig::default())
    }

    /// The shard a new route for `path` goes to: the one its path hashes to, or the one the
    /// strategy picks (which advances the round-robin turn). The comprehensive strategy
    /// weighs floating-point load scores and is not decided here: it gives `None`.
    pub fn target_shard(&mut self, path: &str) -> (r: Option<usize>)
        requires
            old(self).wf(),
            old(self).hashes() || old(self).sharding().strategy == LoadBalanceStrategy::RoundRobin
                ==> old(self).shards().len() > 0,
        ensures
            final(self).wf(),
            final(self).shards() == old(self).shards(),
            final(self).counter() == old(self).counter(),
            final(self).sharding() == old(self).sharding(),
            final(self).hashes() == old(self).hashes(),
            old(self).hashes() ==> (r matches Some(i) && i == old(self).home_shard(path@)) && final(self).turn() == old(self).turn(),
            !old(self).hashes() ==> match old(self).sharding().strategy {
                LoadBalanceStrategy::RoundRobin => (r matches Some(i) && i == old(self).turn() as int % old(self).shards().len() as int)
                    && final(self).turn() == bump(old(self).turn()),
                LoadBalanceStrategy::RouteCount => (r matches Some(i) && i == least_index(old(self).shards().map_values(
                    |s: DynamicShard<R>| s.counters().route_count))) && final(self).turn() == old(self).turn(),
                LoadBalanceStrategy::AccessFrequency => (r matches Some(i) && i == least_index(old(self).shards().map_values(
                    |s: DynamicShard<R>| s.counters().total_access))) && final(self).turn() == old(self).turn(),
                LoadBalanceStrategy::Comprehensive => r is None && final(self).turn() == old(self).turn(),
            },
    {
        if self.config.use_hash_distribution {
            Some(self.manager.hash_shard_index(path))
        } else {
            self.manager.select_shard(path)
        }
    }

    /// Stores `route` for `path` in shard `shard_idx` (nothing happens when there is no such
    /// shard), counting the route in the manager when the shard found none before.
    pub fn insert_into_shard(&mut self, shard_idx: usize, path: String, route: R)
        requires
            old(self).wf(),
            old(self).counters_fit(),
        ensures
            Self::stored(*old(self), *final(self), shard_idx as int, path@, route),
            final(self).turn() == old(self).turn(),
    {
        let ghost before = *self;
        match self.manager.get_shard_mut(shard_idx) {
            Some(shard) => {
                assert(can_count(before.shards()[shard_idx as int]));
                assert(before.shards()[shard_idx as int].wf());
                let existed = shard.contains(path.as_str());
                shard.insert(path.as_str(), route);
                if !existed {
                    self.manager.increment_total_routes();
                }
                proof {
                    assert forall|i: int| 0 <= i < self.shards().len() implies (#[trigger] self.shards()[i]).wf() by {
                        if i != shard_idx {
                            assert(self.shards()[i] == before.shards()[i]);
                        }
                    }
                }
            },
            None => {},
        }
    }

    /// Stores `route` for `path` in the shard `target_shard` gives; false, with nothing
    /// stored, when the comprehensive strategy is to pick the shard.
    pub fn insert(&mut self, path: String, route: R) -> (r: bool)
        requires
            old(self).wf(),
            old(self).hashes() || old(self).sharding().strategy == LoadBalanceStrategy::RoundRobin
                ==> old(self).shards().len() > 0,
            old(self).counters_fit(),
        ensures
            r == (old(self).hashes() || old(self).sharding().strategy != LoadBalanceStrategy::Comprehensive),
            !r ==> final(self).shards() == old(self).shards() && final(self).counter() == old(self).counter()
                && final(self).turn() == old(self).turn() && final(self).wf(),
            old(self).hashes() ==> Self::stored(*old(self), *final(self), old(self).home_shard(path@), path@, route)
                && final(self).turn() == old(self).turn(),
            !old(self).hashes() ==> match old(self).sharding().strategy {
                LoadBalanceStrategy::RoundRobin => Self::stored(*old(self), *final(self),
                    old(self).turn() as int % old(self).shards().len() as int, path@, route)
                    && final(self).turn() == bump(old(self).turn()),
                LoadBalanceStrategy::RouteCount => Self::stored(*old(self), *final(self), least_index(old(self).shards().map_values(
                    |s: DynamicShard<R>| s.counters().route_count)), path@, route) && final(self).turn() == old(self).turn(),
                LoadBalanceStrategy::AccessFrequency => Self::stored(*old(self), *final(self), least_index(old(self).shards().map_values(
                    |s: DynamicShard<R>| s.counters().total_access)), path@, route) && final(self).turn() == old(self).turn(),
                LoadBalanceStrategy::Comprehensive => true,
            },
    {
        let ghost before = *self;
        let target = self.target_shard(path.as_str());
        match target {
            Some(idx) => {
                proof {
                    if !before.hashes() && before.sharding().strategy == LoadBalanceStrategy::RoundRobin {
                        let n = before.shards().len() as int;
                        assert(0 <= before.turn() as int % n < n);
                    }
                }
                let ghost mid = *self;
                let ghost p = path@;
                self.insert_into_shard(idx, path, route);
                assert(Self::stored(mid, *self, idx as int, p, route));
                assert(mid.shards() == before.shards() && mid.counter() == before.counter()
                    && mid.sharding() == before.sharding() && mid.hashes() == before.hashes());
                assert(Self::stored(before, *self, idx as int, p, route));
                true
            },
            None => false,
        }
    }

    /// Removes the route stored for `path` from the shard its path hashes to; true when
    /// there was one, which the manager's counter then uncounts.
    pub fn remove(&mut self, path: &str) -> (r: bool)
        requires
            old(self).wf(),
            old(self).shards().len() > 0,
            old(self).counters_fit(),
        ensures
            final(self).wf(),
            final(self).shards().len() == old(self).shards().len(),
            final(self).sharding() == old(self).sharding(),
            final(self).hashes() == old(self).hashes(),
            final(self).turn() == old(self).turn(),
            ({
                let h = old(self).home_shard(path@);
                &&& r == old(self).shards()[h].tree().removable(path@) is Some
                &&& forall|i: int| 0 <= i < old(self).shards().len() && i != h
                    ==> #[trigger] final(self).shards()[i] == old(self).shards()[i]
                &&& final(self).shards()[h].tree().route_count() + (if r { 1int } else { 0int })
                    == old(self).shards()[h].tree().route_count()
                &&& final(self).shards()[h].shard_id() == old(self).shards()[h].shard_id()
            }),
            final(self).counter() == if r { unbump(old(self).counter()) } else { old(self).counter() },
    {
        let ghost before = *self;
        let idx = self.manager.hash_shard_index(path);
        match self.manager.get_shard_mut(idx) {
            Some(shard) => {
                assert(before.shards()[idx as int].wf());
                let removed = shard.remove(path).is_some();
                if removed {
                    self.manager.decrement_total_routes();
                }
                proof {
                    assert forall|i: int| 0 <= i < self.shards().len() implies (#[trigger] self.shards()[i]).wf() by {
                        if i != idx {
                            assert(self.shards()[i] == before.shards()[i]);
                        }
                    }
                }
                removed
            },
            None => false,
        }
    }

    /// Applies `f` to the route that the shard `path` hashes to finds for it, counting the
    /// lookup in that shard.
    pub fn get_with<F, T>(&mut self, path: &str, f: F) -> (r: Option<T>)
        where
            F: FnOnce(&Arc<R>) -> T,
        requires
            old(self).wf(),
            old(self).shards().len() > 0,
            old(self).counters_fit(),
            forall|a: &Arc<R>| #[trigger] f.requires((a,)),
        ensures
            final(self).wf(),
            final(self).shards().len() == old(self).shards().len(),
            forall|i: int| 0 <= i < old(self).shards().len() ==> #[trigger] final(self).shards()[i].tree()
                == old(self).shards()[i].tree(),
            final(self).counter() == old(self).counter(),
            match old(self).shards()[old(self).home_shard(path@)].tree().lookup(path@) {
                Some((a, _)) => r matches Some(t) && f.ensures((&a,), t),
                None => r is None,
            },
    {
        let ghost before = *self;
        let idx = self.manager.hash_shard_index(path);
        match self.manager.get_shard_mut(idx) {
            Some(shard) => {
                assert(can_count(before.shards()[idx as int]));
                assert(before.shards()[idx as int].wf());
                let found = shard.find(path);
                let r = match found {
                    Some((route, _)) => Some(f(route)),
                    None => None,
                };
                proof {
                    assert forall|i: int| 0 <= i < self.shards().len() implies (#[trigger] self.shards()[i]).wf() by {
                        if i != idx {
                            assert(self.shards()[i] == before.shards()[i]);
                        }
                    }
                }
                r
            },
            None => None,
        }
    }

    /// A copy of the route that the shard `path` hashes to finds for it, counting the
    /// lookup in that shard.
    pub fn get_clone(&mut self, path: &str) -> (r: Option<R>)
        where
            R: Clone,
        requires
            old(self).wf(),
            old(self).shards().len() > 0,
            old(self).counters_fit(),
        ensures
            final(self).wf(),
            final(self).shards().len() == old(self).shards().len(),
            forall|i: int| 0 <= i < old(self).shards().len() ==> #[trigger] final(self).shards()[i].tree()
                == old(self).shards()[i].tree(),
            final(self).counter() == old(self).counter(),
            match old(self).shards()[old(self).home_shard(path@)].tree().lookup(path@) {
                Some((a, _)) => r matches Some(v) && cloned(*a, v),
                None => r is None,
            },
    {
        let ghost before = *self;
        let idx = self.manager.hash_shard_index(path);
        match self.manager.get_shard_mut(idx) {
            Some(shard) => {
                assert(can_count(before.shards()[idx as int]));
                assert(before.shards()[idx as int].wf());
                let found = shard.find(path);
                let r = match found {
                    Some((route, _)) => Some((**route).clone()),
                    None => None,
                };
                proof {
                    assert forall|i: int| 0 <= i < self.shards().len() implies (#[trigger] self.shards()[i]).wf() by {
                        if i != idx {
                            assert(self.shards()[i] == before.shards()[i]);
                        }
                    }
                }
                r
            },
            None => None,
        }
    }

    /// The manager's route counter.
    pub fn count(&self) -> (r: usize)
        ensures
            r == self.counter(),
    {
        self.manager.total_routes()
    }

    /// Whether the shard `path` hashes to finds a route for it.
    pub fn contains(&self, path: &str) -> (r: bool)
        requires
            self.wf(),
            self.shards().len() > 0,
        ensures
            r == self.shards()[self.home_shard(path@)].tree().lookup(path@) is Some,
    {
        let idx = self.manager.hash_shard_index(path);
        match self.manager.get_shard(idx) {
            Some(shard) => shard.contains(path),
            None => false,
        }
    }

    /// The paths of every shard's routes, shard by shard.
    pub fn list_paths(&self) -> (r: Vec<String>)
        requires
            self.wf(),
        ensures
            strings_view(r@) == shard_paths(self.shards(), self.shards().len() as int),
    {
        let mut paths: Vec<String> = Vec::new();
        let n = self.manager.shard_count();
        let mut i: usize = 0;
        assert(strings_view(paths@) =~= shard_paths(self.shards(), 0));
        while i < n
            invariant
                n == self.shards().len(),
                i <= n,
                strings_view(paths@) == shard_paths(self.shards(), i as int),
            decreases n - i,
        {
            match self.manager.get_shard(i) {
                Some(shard) => {
                    let mut more = shard.list_paths();
                    let ghost before = paths@;
                    paths.append(&mut more);
                    assert(strings_view(paths@) =~= strings_view(before) + self.shards()[i as int].tree().paths());
                },
                None => {},
            }
            i = i + 1;
        }
        paths
    }

    /// Empties every shard and sets the manager's route counter to zero.
    pub fn clear(&mut self)
        requires
            old(self).wf(),
        ensures
            final(self).wf(),
            final(self).shards().len() == old(self).shards().len(),
            forall|i: int, p: Seq<char>| 0 <= i < final(self).shards().len()
                ==> #[trigger] final(self).shards()[i].tree().lookup(p) is None,
            forall|i: int| 0 <= i < final(self).shards().len() ==> (#[trigger] final(self).shards()[i]).tree().paths()
                == Seq::<Seq<char>>::empty() && final(self).shards()[i].counters().route_count == 0
                && final(self).shards()[i].shard_id() == old(self).shards()[i].shard_id(),
            final(self).counter() == 0,
            final(self).sharding() == old(self).sharding(),
            final(self).hashes() == old(self).hashes(),
            final(self).turn() == old(self).turn(),
    {
        let ghost before = *self;
        let n = self.manager.shard_count();
        let mut i: usize = 0;
        while i < n
            invariant
                self.wf(),
                n == self.shards().len(),
                n == before.shards().len(),
                i <= n,
                self.sharding() == before.sharding(),
                self.hashes() == before.hashes(),
                self.turn() == before.turn(),
                forall|k: int, p: Seq<char>| 0 <= k < i ==> #[trigger] self.shards()[k].tree().lookup(p) is None,
                forall|k: int| 0 <= k < i ==> (#[trigger] self.shards()[k]).tree().paths()
                    == Seq::<Seq<char>>::empty() && self.shards()[k].counters().route_count == 0,
                forall|k: int| 0 <= k < n ==> (#[trigger] self.shards()[k]).shard_id() == before.shards()[k].shard_id(),
            decreases n - i,
        {
            let ghost mid = *self;
            match self.manager.get_shard_mut(i) {
                Some(shard) => {
                    shard.clear();
                },
                None => {},
            }
            proof {
                assert forall|k: int| 0 <= k < self.shards().len() implies (#[trigger] self.shards()[k]).wf() by {
                    if k != i {
                        assert(self.shards()[k] == mid.shards()[k]);
                    }
                }
                assert forall|k: int, p: Seq<char>| 0 <= k < i + 1 implies #[trigger] self.shards()[k].tree().lookup(p) is None by {
                    if k != i {
                        assert(self.shards()[k] == mid.shards()[k]);
                    }
                }
                assert forall|k: int| 0 <= k < i + 1 implies (#[trigger] self.shards()[k]).tree().paths()
                    == Seq::<Seq<char>>::empty() && self.shards()[k].counters().route_count == 0 by {
                    if k != i {
                        assert(self.shards()[k] == mid.shards()[k]);
                    }
                }
                assert forall|k: int| 0 <= k < n implies (#[trigger] self.shards()[k]).shard_id() == before.shards()[k].shard_id() by {
                    if k != i {
                        assert(self.shards()[k] == mid.shards()[k]);
                    }
                }
            }
            i = i + 1;
        }
        self.manager.reset_total_routes();
    }

    /// Stores each of `routes` in turn as `insert` does. When the comprehensive strategy is
    /// to pick the shards, nothing is stored and every route is handed back; otherwise
    /// nothing is.
    pub fn batch_insert(&mut self, routes: Vec<(String, R)>) -> (left: Vec<(String, R)>)
        requires
            old(self).wf(),
            old(self).hashes() || old(self).sharding().strategy == LoadBalanceStrategy::RoundRobin
                ==> old(self).shards().len() > 0,
            forall|i: int| 0 <= i < old(self).shards().len()
                ==> can_count_many(#[trigger] old(self).shards()[i], routes@.len()),
        ensures
            final(self).wf(),
            final(self).shards().len() == old(self).shards().len(),
            final(self).sharding() == old(self).sharding(),
            final(self).hashes() == old(self).hashes(),
            (old(self).hashes() || old(self).sharding().strategy != LoadBalanceStrategy::Comprehensive)
                ==> left@.len() == 0,
            !(old(self).hashes() || old(self).sharding().strategy != LoadBalanceStrategy::Comprehensive)
                ==> left@ == routes@ && final(self).shards() == old(self).shards() && final(self).counter() == old(self).counter(),
            (old(self).hashes() || old(self).sharding().strategy != LoadBalanceStrategy::Comprehensive)
                && old(self).shards().len() > 0
                ==> forall|k: int| #![trigger routes@[k]] 0 <= k < routes@.len() && !renamed_later(routes@, k, routes@.len() as int)
                ==> exists|s: int| 0 <= s < final(self).shards().len()
                    && (#[trigger] final(self).shards()[s].tree().stored_route(routes@[k].0@) matches Some(x) && *x == routes@[k].1)
                    && (old(self).places_by_turn() ==> s == batch_target(*old(self), routes@, k)),
            old(self).places_by_turn() ==> forall|s: int| 0 <= s < old(self).shards().len()
                ==> #[trigger] final(self).shards()[s].counters().write_count
                    == old(self).shards()[s].counters().write_count + sent_to(*old(self), routes@, routes@.len() as int, s),
            old(self).hashes() && routes@.len() > 0 && no_wildcard(segments(routes@.last().0@)) ==> (final(self).shards()[
                final(self).home_shard(routes@.last().0@)].tree().lookup(routes@.last().0@) matches Some((x, _))
                && *x == routes@.last().1),
    {
        let ghost all = routes@;
        let ghost before = *self;
        let places = self.config.use_hash_distribution || self.manager.config().strategy != LoadBalanceStrategy::Comprehensive;
        if !places {
            return routes;
        }
        let mut rest = routes;
        let n = rest.len();
        let count = self.manager.shard_count();
        let mut i: usize = 0;
        while rest.len() > 0
            invariant
                self.wf(),
                self.shards().len() == count,
                self.shards().len() == before.shards().len(),
                before.hashes() || before.sharding().strategy == LoadBalanceStrategy::RoundRobin
                    ==> self.shards().len() > 0,
                self.sharding() == before.sharding(),
                self.hashes() == before.hashes(),
                places == (before.hashes() || before.sharding().strategy != LoadBalanceStrategy::Comprehensive),
                places,
                n == all.len(),
                i + rest@.len() == n,
                rest@ == all.subrange(i as int, n as int),
                before.places_by_turn() ==> self.turn() == if before.hashes() { before.turn() } else { turn_plus(before.turn(), i as nat) },
                forall|k: int| 0 <= k < self.shards().len() ==> {
                    let c = (#[trigger] self.shards()[k]).counters();
                    let c0 = before.shards()[k].counters();
                    &&& c.route_count <= c0.route_count + i
                    &&& c.write_count <= c0.write_count + i
                    &&& c.read_count <= c0.read_count + i
                    &&& c.total_access <= c0.total_access + i
                },
                forall|k: int| 0 <= k < before.shards().len() ==> can_count_many(#[trigger] before.shards()[k], n as nat),
                before.hashes() && i > 0 && no_wildcard(segments(all[i - 1].0@)) ==> (self.shards()[
                    self.home_shard(all[i - 1].0@)].tree().lookup(all[i - 1].0@) matches Some((x, _)) && *x == all[i - 1].1),
                self.shards().len() > 0 ==> forall|k: int| #![trigger all[k]] 0 <= k < i && !renamed_later(all, k, i as int)
                    ==> exists|s: int| 0 <= s < self.shards().len()
                        && (#[trigger] self.shards()[s].tree().stored_route(all[k].0@) matches Some(x) && *x == all[k].1)
                        && (before.places_by_turn() ==> s == batch_target(before, all, k)),
                before.places_by_turn() ==> forall|s: int| 0 <= s < before.shards().len()
                    ==> #[trigger] self.shards()[s].counters().write_count
                        == before.shards()[s].counters().write_count + sent_to(before, all, i as int, s),
            decreases rest@.len(),
        {
            let (path, route) = rest.remove(0);
            assert(all[i as int] == (path, route));
            let ghost pre = *self;
            proof {
                assert forall|k: int| 0 <= k < self.shards().len() implies can_count(#[trigger] self.shards()[k]) by {
                    assert(can_count_many(before.shards()[k], n as nat));
                }
            }
            let ghost p = path@;
            let ghost rt = route;
            let placed = self.insert(path, route);
            proof {
                let tgt: int = if before.hashes() {
                    pre.home_shard(p)
                } else {
                    match before.sharding().strategy {
                        LoadBalanceStrategy::RoundRobin => pre.turn() as int % pre.shards().len() as int,
                        LoadBalanceStrategy::RouteCount => least_index(pre.shards().map_values(
                            |s: DynamicShard<R>| s.counters().route_count)),
                        LoadBalanceStrategy::AccessFrequency => least_index(pre.shards().map_values(
                            |s: DynamicShard<R>| s.counters().total_access)),
                        LoadBalanceStrategy::Comprehensive => 0int,
                    }
                };
                assert(Self::stored(pre, *self, tgt, p, rt));
                if !before.hashes() && pre.shards().len() > 0 {
                    if before.sharding().strategy == LoadBalanceStrategy::RoundRobin {
                        let nn = pre.shards().len() as int;
                        assert(0 <= pre.turn() as int % nn < nn);
                    } else if before.sharding().strategy == LoadBalanceStrategy::RouteCount {
                        lemma_least_index_range(pre.shards().map_values(|s: DynamicShard<R>| s.counters().route_count));
                    } else if before.sharding().strategy == LoadBalanceStrategy::AccessFrequency {
                        lemma_least_index_range(pre.shards().map_values(|s: DynamicShard<R>| s.counters().total_access));
                    }
                }
                if pre.shards().len() > 0 {
                assert(0 <= tgt < pre.shards().len());
                if before.places_by_turn() {
                    assert(tgt == batch_target(before, all, i as int));
                    assert(sent_to(before, all, i + 1, tgt) == sent_to(before, all, i as int, tgt) + 1);
                    assert forall|s: int| 0 <= s < before.shards().len() implies #[trigger] self.shards()[s].counters().write_count
                        == before.shards()[s].counters().write_count + sent_to(before, all, i + 1, s) by {
                        if s != tgt {
                            assert(self.shards()[s] == pre.shards()[s]);
                            assert(sent_to(before, all, i + 1, s) == sent_to(before, all, i as int, s));
                        }
                    }
                }
                if before.hashes() {
                    assert(self.home_shard(p) == tgt);
                    assert(p == all[i as int].0@ && rt == all[i as int].1);
                }
                assert forall|k: int| #![trigger all[k]] 0 <= k < i + 1 && !renamed_later(all, k, i + 1)
                    implies exists|s: int| 0 <= s < self.shards().len()
                        && (#[trigger] self.shards()[s].tree().stored_route(all[k].0@) matches Some(x) && *x == all[k].1)
                        && (before.places_by_turn() ==> s == batch_target(before, all, k)) by {
                    if k == i {
                        lemma_same_position_refl(segments(p));
                        assert(self.shards()[tgt].tree().stored_route(all[k].0@) matches Some(x) && *x == all[k].1);
                    } else {
                        assert(!renamed_later(all, k, i as int)) by {
                            if renamed_later(all, k, i as int) {
                                let j = choose|j: int| k < j < i && same_position(segments(all[j].0@), segments(all[k].0@), 0);
                                assert(k < j < i + 1);
                            }
                        }
                        let s = choose|s: int| 0 <= s < pre.shards().len()
                            && (#[trigger] pre.shards()[s].tree().stored_route(all[k].0@) matches Some(x) && *x == all[k].1)
                            && (before.places_by_turn() ==> s == batch_target(before, all, k));
                        assert(!same_position(segments(p), segments(all[k].0@), 0));
                        assert(self.shards()[s].tree().stored_route(all[k].0@) == pre.shards()[s].tree().stored_route(all[k].0@));
                    }
                }
                }
                assert forall|k: int| 0 <= k < self.shards().len() implies {
                    let c = (#[trigger] self.shards()[k]).counters();
                    let c0 = before.shards()[k].counters();
                    &&& c.route_count <= c0.route_count + i + 1
                    &&& c.write_count <= c0.write_count + i + 1
                    &&& c.read_count <= c0.read_count + i + 1
                    &&& c.total_access <= c0.total_access + i + 1
                } by {
                    assert(pre.shards()[k].counters().route_count <= before.shards()[k].counters().route_count + i);
                }
            }
            i = i + 1;
            assert(rest@ =~= all.subrange(i as int, n as int));
        }
        rest
    }

    /// The number of shards.
    pub fn shard_count(&self) -> (r: usize)
        ensures
            r == self.shards().len(),
    {
        self.manager.shard_count()
    }

    /// Adds a shard or removes the last (empty) one, as `DynamicShardManager::adjust_shard_count`.
    pub fn adjust_shard_count(&mut self, increase: bool) -> (r: Result<(), String>)
        requires
            old(self).wf(),
        ensures
            final(self).wf(),
            final(self).sharding() == old(self).sharding(),
            final(self).hashes() == old(self).hashes(),
            final(self).counter() == old(self).counter(),
            ({
                let n = old(self).shards().len();
                if increase {
                    if n >= old(self).sharding().max_shards {
                        &&& r matches Err(e) && e@ == "已达到最大分片数量"@
                        &&& final(self).shards() == old(self).shards()
                    } else {
                        &&& r is Ok
                        &&& final(self).shards().len() == n + 1
                        &&& final(self).shards().subrange(0, n as int) == old(self).shards()
                        &&& final(self).shards()[n as int].shard_id() == n
                        &&& final(self).shards()[n as int].counters().route_count == 0
                    }
                } else {
                    if n <= old(self).sharding().min_shards {
                        &&& r matches Err(e) && e@ == "已达到最小分片数量"@
                        &&& final(self).shards() == old(self).shards()
                    } else if old(self).shards()[n - 1].counters().route_count > 0 {
                        &&& r matches Err(e) && e@ == "最后一个分片不为空，无法移除"@
                        &&& final(self).shards() == old(self).shards()
                    } else {
                        &&& r is Ok
                        &&& final(self).shards() == old(self).shards().drop_last()
                    }
                }
            }),
    {
        self.manager.adjust_shard_count(increase)
    }

    /// Sets how shards are picked.
    pub fn set_load_balance_strategy(&mut self, strategy: LoadBalanceStrategy)
        ensures
            final(self).sharding() == (DynamicShardingConfig { strategy, ..old(self).sharding() }),
            final(self).shards() == old(self).shards(),
            final(self).counter() == old(self).counter(),
            final(self).hashes() == old(self).hashes(),
            final(self).turn() == old(self).turn(),
    {
        self.manager.set_strategy(strategy);
    }

    /// Whether new routes go to the shard their path hashes to.
    pub fn uses_hash_distribution(&self) -> (r: bool)
        ensures
            r == self.hashes(),
    {
        self.config.use_hash_distribution
    }

    /// How shards are picked.
    pub fn get_load_balance_strategy(&self) -> (r: LoadBalanceStrategy)
        ensures
            r == self.sharding().strategy,
    {
        self.manager.config().strategy
    }

    /// The counters of every shard, in order.
    pub fn get_shard_metrics(&self) -> (r: Vec<ShardMetrics>)
        ensures
            r@ == self.shards().map_values(|s: DynamicShard<R>| s.counters()),
    {
        self.manager.get_all_metrics()
    }

    /// Moves up to half the routes of shard `from_idx` to shard `to_idx`, as
    /// `DynamicShardManager::move_routes_between_shards` does; gives the number moved.
    pub fn move_routes_between_shards(&mut self, from_idx: usize, to_idx: usize) -> (r: usize)
        requires
            old(self).wf(),
            from_idx < old(self).shards().len(),
            to_idx < old(self).shards().len(),
            has_room(old(self).shards()[from_idx as int], old(self).shards()[from_idx as int].tree().paths().len()),
            has_room(old(self).shards()[to_idx as int], old(self).shards()[from_idx as int].tree().paths().len()),
        ensures
            final(self).wf(),
            final(self).shards().len() == old(self).shards().len(),
            final(self).sharding() == old(self).sharding(),
            final(self).hashes() == old(self).hashes(),
            final(self).counter() == old(self).counter(),
            forall|k: int| 0 <= k < old(self).shards().len() && k != from_idx && k != to_idx
                ==> #[trigger] final(self).shards()[k] == old(self).shards()[k],
            r <= old(self).shards()[from_idx as int].tree().paths().len() / 2,
            old(self).shards()[from_idx as int].tree().paths().len() >= 2 ==> r >= 1,
            from_idx != to_idx ==> final(self).shards()[from_idx as int].tree().route_count() + r
                == old(self).shards()[from_idx as int].tree().route_count(),
            from_idx != to_idx ==> final(self).shards()[to_idx as int].counters().write_count
                == old(self).shards()[to_idx as int].counters().write_count + r,
            from_idx != to_idx ==> ({
                let src = old(self).shards()[from_idx as int].tree();
                let mv = moves(src, src.paths(), src.paths().len() as int, src.paths().len() / 2);
                &&& r == mv.len()
                &&& forall|q: Seq<char>| #[trigger] final(self).shards()[from_idx as int].tree().stored_route(q)
                    == if names_one_of(mv, q) { None } else { src.stored_route(q) }
                &&& forall|q: Seq<char>| #[trigger] final(self).shards()[to_idx as int].tree().stored_route(q)
                    == if names_one_of(mv, q) { src.stored_route(q) } else { old(self).shards()[to_idx as int].tree().stored_route(q) }
            }),
    {
        self.manager.move_routes_between_shards(from_idx, to_idx)
    }

    /// The shard manager.
    pub fn manager(&self) -> (r: &DynamicShardManager<R>)
        ensures
            r.shard_list() == self.shards(),
            r.route_counter() == self.counter(),
            r.settings() == self.sharding(),
    {
        &self.manager
    }
}

impl<R> Default for DynamicRouteTable<R> {
    fn default() -> (t: Self)
        ensures
            t.wf(),
            t.shards().len() == 8,
            t.hashes(),
            t.counter() == 0,
    {
        Self::default_config()
    }
}

} // verus!

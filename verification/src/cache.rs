//! A cache of values by path whose entries expire after a time to live, and operations on
//! many routes of a route table at once.
use vstd::prelude::*;
use std::time::{Duration, Instant};
use crate::text::{str_eq, segments};
use crate::cache_optimized::{no_wildcard, all_static, is_static_segment};
use crate::route_table::{RouteTable, NUM_SHARDS};
use crate::route_radix_tree::{RouteRadixTree, lemma_static_tree_removable};
use crate::segment_tree::may_name;

verus! {

/// `std::time::Instant`, declared for use in signatures and fields.
#[verifier::external_type_specification]
#[verifier::external_body]
pub struct ExInstant(Instant);

/// `Duration` is `Copy`; its `clone` returns the same duration.
pub assume_specification[ <Duration as Clone>::clone ](d: &Duration) -> (r: Duration)
    ensures
        r == *d,
;

/// `Instant::now`: the current moment of the monotonic clock; nothing is stated of it.
#[verifier::external_body]
pub(crate) fn instant_now() -> Instant {
    Instant::now()
}

/// `Instant::elapsed`: the time since `t`; it depends on the clock, so nothing is stated of it.
#[verifier::external_body]
pub(crate) fn instant_elapsed(t: &Instant) -> Duration {
    t.elapsed()
}

/// The total number of nanoseconds in `d`, as `Duration::as_nanos` gives it.
pub uninterp spec fn duration_nanos(d: Duration) -> u128;

/// `Duration::as_nanos`: the total number of nanoseconds in `d`.
#[verifier::external_body]
pub(crate) fn duration_as_nanos(d: &Duration) -> (r: u128)
    ensures
        r == duration_nanos(*d),
{
    d.as_nanos()
}

/// `Duration::from_secs`: a duration of `secs` whole seconds, that is `secs * 10^9`
/// nanoseconds.
#[verifier::external_body]
pub(crate) fn duration_from_secs(secs: u64) -> (r: Duration)
    ensures
        duration_nanos(r) == secs * 1_000_000_000,
{
    Duration::from_secs(secs)
}

/// Whether an entry that has lived `elapsed` nanoseconds is past a time to live of `ttl`.
pub fn expired_after(elapsed: u128, ttl: u128) -> (r: bool)
    ensures
        r == (elapsed >= ttl),
{
    elapsed >= ttl
}

/// A cached value with the moment it was stored and its time to live.
struct CacheEntry<T> {
    value: T,
    timestamp: Instant,
    ttl: Duration,
}

impl<T> CacheEntry<T> {
    fn new(value: T, ttl: Duration) -> (r: CacheEntry<T>)
        ensures
            r.value == value,
            r.ttl == ttl,
    {
        CacheEntry { value, timestamp: instant_now(), ttl }
    }

    /// How many nanoseconds ago the entry was stored, read from the clock.
    fn elapsed_nanos(&self) -> u128 {
        duration_as_nanos(&instant_elapsed(&self.timestamp))
    }
}

/// Whether some entry of `e` has key `k`.
pub open spec fn has_entry<V>(e: Seq<(Seq<char>, V)>, k: Seq<char>) -> bool {
    exists|i: int| 0 <= i < e.len() && e[i].0 == k
}

/// No two entries of `e` share a key.
pub open spec fn keys_unique<V>(e: Seq<(Seq<char>, V)>) -> bool {
    forall|i: int, j: int| 0 <= i < e.len() && 0 <= j < e.len() && i != j ==> #[trigger] e[i].0 != #[trigger] e[j].0
}

/// The entries of `e` from position `i` on that are still alive: those whose age in
/// `elapsed` is below `ttl`, in order.
pub open spec fn live_entries<V>(e: Seq<(Seq<char>, V)>, elapsed: Seq<u128>, ttl: u128, i: int) -> Seq<(Seq<char>, V)>
    decreases e.len() - i,
{
    if i < 0 || i >= e.len() {
        Seq::empty()
    } else {
        (if elapsed[i] < ttl { seq![e[i]] } else { Seq::empty() }) + live_entries(e, elapsed, ttl, i + 1)
    }
}

/// The position of the entry for `k` (meaningful when `has_entry(e, k)`).
pub open spec fn entry_index<V>(e: Seq<(Seq<char>, V)>, k: Seq<char>) -> int {
    choose|i: int| 0 <= i < e.len() && e[i].0 == k
}

/// `e` after storing `v` under `k`: the entry for `k` replaced in place, or appended.
pub open spec fn cache_put<V>(e: Seq<(Seq<char>, V)>, k: Seq<char>, v: V) -> Seq<(Seq<char>, V)> {
    if has_entry(e, k) { e.update(entry_index(e, k), (k, v)) } else { e.push((k, v)) }
}

/// Storing `v` under `k` in a list whose keys are unique keeps them unique; afterwards the
/// entry found for `k` holds `v`, and every other key is found exactly as before.
pub proof fn lemma_put_then_lookup<V>(e: Seq<(Seq<char>, V)>, k: Seq<char>, v: V)
    requires
        keys_unique(e),
    ensures
        keys_unique(cache_put(e, k, v)),
        has_entry(cache_put(e, k, v), k),
        cache_put(e, k, v)[entry_index(cache_put(e, k, v), k)] == (k, v),
        forall|k2: Seq<char>| k2 != k ==> (has_entry(cache_put(e, k, v), k2) == has_entry(e, k2)),
        forall|k2: Seq<char>| k2 != k && has_entry(e, k2) ==>
            cache_put(e, k, v)[entry_index(cache_put(e, k, v), k2)] == e[entry_index(e, k2)],
{
    let p = cache_put(e, k, v);
    let pos = if has_entry(e, k) { entry_index(e, k) } else { e.len() as int };
    assert(p[pos] == (k, v));
    assert forall|a: int, b: int| 0 <= a < p.len() && 0 <= b < p.len() && a != b
        implies #[trigger] p[a].0 != #[trigger] p[b].0 by {
        if a != pos && b != pos {
            assert(p[a] == e[a] && p[b] == e[b]);
        } else if a == pos {
            assert(p[b] == e[b]);
        } else {
            assert(p[a] == e[a]);
        }
    };
    let j = entry_index(p, k);
    if j != pos {
        assert(p[j].0 != p[pos].0);
    }
    assert forall|k2: Seq<char>| k2 != k implies (has_entry(p, k2) == has_entry(e, k2)) by {
        if has_entry(e, k2) {
            let i = entry_index(e, k2);
            assert(p[i] == e[i]);
        }
        if has_entry(p, k2) {
            let i = entry_index(p, k2);
            assert(i != pos);
            assert(p[i] == e[i]);
        }
    };
    assert forall|k2: Seq<char>| k2 != k && has_entry(e, k2) implies
        p[entry_index(p, k2)] == e[entry_index(e, k2)] by {
        let i = entry_index(e, k2);
        assert(p[i] == e[i]);
        let i2 = entry_index(p, k2);
        assert(i2 != pos);
        assert(p[i2] == e[i2]);
        if i2 != i {
            assert(e[i2].0 != e[i].0);
        }
    };
}

/// A batch of paths that can each be counted alone: all literal, no two with the same
/// segments, and a table whose routes all stand at literal positions.
pub open spec fn static_batch<R>(trees: Seq<RouteRadixTree<R>>, paths: Seq<String>) -> bool {
    &&& forall|k: int| 0 <= k < paths.len() ==> all_static(segments(#[trigger] paths[k]@))
    &&& forall|j: int, k: int| 0 <= j < paths.len() && 0 <= k < paths.len() && j != k
        ==> segments(#[trigger] paths[j]@) != segments(#[trigger] paths[k]@)
    &&& forall|t: int, q: Seq<char>| 0 <= t < NUM_SHARDS && #[trigger] trees[t].stored_route(q) is Some
        ==> all_static(segments(q))
}

/// How many of the first `n` paths have a route stored under them in their home shard.
pub open spec fn stored_count<R>(trees: Seq<RouteRadixTree<R>>, paths: Seq<String>, n: int) -> nat
    decreases n,
{
    if n <= 0 {
        0
    } else {
        stored_count(trees, paths, n - 1)
            + if trees[RouteTable::<R>::home_shard(paths[n - 1]@)].stored_route(paths[n - 1]@) is Some { 1nat } else { 0nat }
    }
}

/// A step of a sequence of cache calls: storing a value under a key, or reading a key
/// (which changes no entry).
pub enum CacheOp<V> {
    Put(Seq<char>, V),
    Read(Seq<char>),
}

/// The entries after the calls `ops`, starting from `e`.
pub open spec fn replay<V>(e: Seq<(Seq<char>, V)>, ops: Seq<CacheOp<V>>) -> Seq<(Seq<char>, V)>
    decreases ops.len(),
{
    if ops.len() == 0 {
        e
    } else {
        let prev = replay(e, ops.drop_last());
        match ops.last() {
            CacheOp::Put(k, v) => cache_put(prev, k, v),
            CacheOp::Read(_) => prev,
        }
    }
}

/// The value the last store of `k` among `ops` stored, if any.
pub open spec fn last_put<V>(ops: Seq<CacheOp<V>>, k: Seq<char>) -> Option<V>
    decreases ops.len(),
{
    if ops.len() == 0 {
        None
    } else {
        match ops.last() {
            CacheOp::Put(k2, v) => if k2 == k { Some(v) } else { last_put(ops.drop_last(), k) },
            CacheOp::Read(_) => last_put(ops.drop_last(), k),
        }
    }
}

/// The value an entry list holds under `k`, if any.
pub open spec fn cached_value<V>(e: Seq<(Seq<char>, V)>, k: Seq<char>) -> Option<V> {
    if has_entry(e, k) { Some(e[entry_index(e, k)].1) } else { None }
}

/// Over any sequence of stores and reads from an empty cache, keys stay unique and a key
/// holds the value of its last store, or nothing when it was never stored.
pub proof fn lemma_replay_reads_last_put<V>(ops: Seq<CacheOp<V>>)
    ensures
        keys_unique(replay(Seq::<(Seq<char>, V)>::empty(), ops)),
        forall|k: Seq<char>| #[trigger] cached_value(replay(Seq::<(Seq<char>, V)>::empty(), ops), k) == last_put(ops, k),
    decreases ops.len(),
{
    let e0 = Seq::<(Seq<char>, V)>::empty();
    if ops.len() > 0 {
        lemma_replay_reads_last_put(ops.drop_last());
        let prev = replay(e0, ops.drop_last());
        match ops.last() {
            CacheOp::Put(k, v) => {
                lemma_put_then_lookup(prev, k, v);
                assert forall|k2: Seq<char>| #[trigger] cached_value(replay(e0, ops), k2) == last_put(ops, k2) by {
                    assert(cached_value(prev, k2) == last_put(ops.drop_last(), k2));
                }
            },
            CacheOp::Read(_) => {
                assert forall|k2: Seq<char>| #[trigger] cached_value(replay(e0, ops), k2) == last_put(ops, k2) by {
                    assert(cached_value(prev, k2) == last_put(ops.drop_last(), k2));
                }
            },
        }
    }
}

/// `e` after taking out the entry for `k`, if there is one.
pub open spec fn cache_drop<V>(e: Seq<(Seq<char>, V)>, k: Seq<char>) -> Seq<(Seq<char>, V)> {
    if has_entry(e, k) { e.remove(entry_index(e, k)) } else { e }
}

/// `e` without the entry for `k`.
pub open spec fn without_entry<V>(e: Seq<(Seq<char>, V)>, k: Seq<char>) -> Seq<(Seq<char>, V)> {
    e.filter(|x: (Seq<char>, V)| x.0 != k)
}

/// A cache of values by path; an entry stops being served once its time to live has passed.
pub struct RouteCache<T> {
    entries: Vec<(String, CacheEntry<T>)>,
    ttl: Duration,
}

/// The cached keys and values, in insertion order.
spec fn route_cache_view<T>(e: Seq<(String, CacheEntry<T>)>) -> Seq<(Seq<char>, T)> {
    e.map_values(|x: (String, CacheEntry<T>)| (x.0@, x.1.value))
}

impl<T> RouteCache<T> {
    #[verifier::type_invariant]
    spec fn inv(self) -> bool {
        &&& forall|i: int, j: int| 0 <= i < self.entries@.len() && 0 <= j < self.entries@.len() && i != j
            ==> #[trigger] self.entries@[i].0@ != #[trigger] self.entries@[j].0@
        &&& forall|i: int| 0 <= i < self.entries@.len() ==> (#[trigger] self.entries@[i]).1.ttl == self.ttl
    }

    /// The time to live of the entries, in nanoseconds.
    pub closed spec fn ttl_nanos(&self) -> u128 {
        duration_nanos(self.ttl)
    }

    /// The cached keys and values, in insertion order.
    pub closed spec fn entries(&self) -> Seq<(Seq<char>, T)> {
        route_cache_view(self.entries@)
    }

    /// The moment each entry was stored, in the order of `entries()`; an entry's age is
    /// measured from it.
    pub closed spec fn stamps(&self) -> Seq<Instant> {
        self.entries@.map_values(|x: (String, CacheEntry<T>)| x.1.timestamp)
    }

    /// There is one moment per entry.
    pub proof fn lemma_stamp_per_entry(&self)
        ensures
            self.stamps().len() == self.entries().len(),
    {
    }

    /// An empty cache whose entries live for `ttl`.
    pub fn new(ttl: Duration) -> (r: RouteCache<T>)
        ensures
            r.entries() == Seq::<(Seq<char>, T)>::empty(),
            r.stamps() == Seq::<Instant>::empty(),
            r.ttl_nanos() == duration_nanos(ttl),
            keys_unique(r.entries()),
    {
        let r = RouteCache { entries: Vec::new(), ttl };
        assert(r.entries() =~= Seq::<(Seq<char>, T)>::empty());
        assert(r.stamps() =~= Seq::<Instant>::empty());
        r
    }

    fn find(&self, key: &str) -> (r: Option<usize>)
        ensures
            match r {
                Some(i) => i < self.entries@.len() && self.entries()[i as int].0 == key@,
                None => !has_entry(self.entries(), key@),
            },
    {
        let mut i: usize = 0;
        while i < self.entries.len()
            invariant
                i <= self.entries@.len(),
                forall|j: int| 0 <= j < i ==> self.entries()[j].0 != key@,
            decreases self.entries.len() - i,
        {
            if str_eq(self.entries[i].0.as_str(), key) {
                return Some(i);
            }
            i = i + 1;
        }
        None
    }

    fn remove_at(&mut self, i: usize)
        requires
            i < old(self).entries@.len(),
        ensures
            final(self).entries() == old(self).entries().remove(i as int),
            final(self).stamps() == old(self).stamps().remove(i as int),
            final(self).ttl == old(self).ttl,
    {
        proof { use_type_invariant(&*self); }
        let ghost old_e = self.entries@;
        let mut entries: Vec<(String, CacheEntry<T>)> = Vec::new();
        std::mem::swap(&mut entries, &mut self.entries);
        entries.remove(i);
        assert(route_cache_view(entries@) =~= route_cache_view(old_e).remove(i as int));
        assert(entries@.map_values(|x: (String, CacheEntry<T>)| x.1.timestamp)
            =~= old_e.map_values(|x: (String, CacheEntry<T>)| x.1.timestamp).remove(i as int));
        assert forall|a: int, b: int| 0 <= a < entries@.len() && 0 <= b < entries@.len() && a != b
            implies #[trigger] entries@[a].0@ != #[trigger] entries@[b].0@ by {
            let a0 = if a < i { a } else { a + 1 };
            let b0 = if b < i { b } else { b + 1 };
            assert(entries@[a] == old_e[a0]);
            assert(entries@[b] == old_e[b0]);
        };
        self.entries = entries;
    }

    /// Stores `value` under `key` with a fresh time to live, replacing an earlier value.
    pub fn insert(&mut self, key: &str, value: T)
        ensures
            final(self).ttl_nanos() == old(self).ttl_nanos(),
            keys_unique(final(self).entries()),
            has_entry(old(self).entries(), key@) ==> exists|i: int| 0 <= i < old(self).entries().len()
                && old(self).entries()[i].0 == key@
                && final(self).entries() == old(self).entries().update(i, (key@, value)),
            !has_entry(old(self).entries(), key@) ==> final(self).entries() == old(self).entries().push((key@, value)),
            final(self).entries() == cache_put(old(self).entries(), key@, value),
            final(self).stamps().len() == final(self).entries().len(),
            forall|j: int| 0 <= j < old(self).entries().len() && old(self).entries()[j].0 != key@
                ==> #[trigger] final(self).stamps()[j] == old(self).stamps()[j],
    {
        proof { use_type_invariant(&*self); }
        let ghost old_v = self.entries();
        let ghost old_e = self.entries@;
        let found = self.find(key);
        let entry = CacheEntry::new(value, self.ttl);
        let mut entries: Vec<(String, CacheEntry<T>)> = Vec::new();
        std::mem::swap(&mut entries, &mut self.entries);
        match found {
            Some(i) => {
                proof {
                    let j = entry_index(old_v, key@);
                    assert(old_v[i as int].0 == key@);
                    if j != i {
                        assert(old_e[j].0@ != old_e[i as int].0@);
                    }
                }
                entries.set(i, (crate::text::owned(key), entry));
                assert(route_cache_view(entries@) =~= old_v.update(i as int, (key@, value)));
                assert forall|a: int, b: int| 0 <= a < entries@.len() && 0 <= b < entries@.len() && a != b
                    implies #[trigger] entries@[a].0@ != #[trigger] entries@[b].0@ by {
                    assert(old_e[a].0@ != old_e[b].0@);
                    assert(entries@[a].0@ == old_v.update(i as int, (key@, value))[a].0);
                    assert(entries@[b].0@ == old_v.update(i as int, (key@, value))[b].0);
                };
            },
            None => {
                entries.push((crate::text::owned(key), entry));
                assert(route_cache_view(entries@) =~= old_v.push((key@, value)));
                assert forall|a: int, b: int| 0 <= a < entries@.len() && 0 <= b < entries@.len() && a != b
                    implies #[trigger] entries@[a].0@ != #[trigger] entries@[b].0@ by {
                    if a < old_e.len() && b < old_e.len() {
                        assert(old_e[a].0@ != old_e[b].0@);
                    } else if a < old_e.len() {
                        assert(old_v[a].0 == entries@[a].0@);
                    } else {
                        assert(old_v[b].0 == entries@[b].0@);
                    }
                };
            },
        }
        self.entries = entries;
    }

}

impl<T: Clone> RouteCache<T> {
    /// The value under `key` while its time to live lasts; an expired entry is removed. The
    /// age of the entry is read from the clock, and `get_at` decides with it.
    pub fn get(&mut self, key: &str) -> (r: Option<T>)
        ensures
            !has_entry(old(self).entries(), key@) ==> r is None && final(self).entries() == old(self).entries(),
            has_entry(old(self).entries(), key@) ==> match r {
                Some(v) => cloned::<T>(old(self).entries()[entry_index(old(self).entries(), key@)].1, v)
                    && final(self).entries() == old(self).entries(),
                None => final(self).entries() == old(self).entries().remove(entry_index(old(self).entries(), key@)),
            },
            old(self).ttl_nanos() == 0 ==> r is None,
            final(self).ttl_nanos() == old(self).ttl_nanos(),
            keys_unique(final(self).entries()),
            final(self).stamps() == if final(self).entries() == old(self).entries() { old(self).stamps() }
                else { old(self).stamps().remove(entry_index(old(self).entries(), key@)) },
    {
        match self.find(key) {
            Some(i) => {
                let elapsed = self.entries[i].1.elapsed_nanos();
                self.get_at(key, elapsed)
            },
            None => {
                proof { use_type_invariant(&*self); }
                None
            },
        }
    }

    /// The value under `key` for an entry stored `elapsed_nanos` ago: a clone of it while
    /// that age is below the time to live, else `None`, and the entry is removed.
    pub fn get_at(&mut self, key: &str, elapsed_nanos: u128) -> (r: Option<T>)
        ensures
            !has_entry(old(self).entries(), key@) ==> r is None && final(self).entries() == old(self).entries(),
            has_entry(old(self).entries(), key@) && elapsed_nanos < old(self).ttl_nanos() ==> (r matches Some(v)
                && cloned::<T>(old(self).entries()[entry_index(old(self).entries(), key@)].1, v)
                && final(self).entries() == old(self).entries()),
            has_entry(old(self).entries(), key@) && elapsed_nanos >= old(self).ttl_nanos() ==> r is None
                && final(self).entries() == old(self).entries().remove(entry_index(old(self).entries(), key@)),
            final(self).ttl_nanos() == old(self).ttl_nanos(),
            keys_unique(final(self).entries()),
            final(self).stamps() == if final(self).entries() == old(self).entries() { old(self).stamps() }
                else { old(self).stamps().remove(entry_index(old(self).entries(), key@)) },
    {
        proof { use_type_invariant(&*self); }
        let ghost old_v = self.entries();
        let ghost old_e = self.entries@;
        match self.find(key) {
            Some(i) => {
                assert(old_v[i as int].0 == key@);
                let r = if expired_after(elapsed_nanos, duration_as_nanos(&self.ttl)) {
                    self.remove_at(i);
                    assert(self.entries() == old_v.remove(i as int));
                    None
                } else {
                    let v = self.entries[i].1.value.clone();
                    assert(old_v[i as int].1 == self.entries@[i as int].1.value);
                    assert(cloned::<T>(old_v[i as int].1, v));
                    Some(v)
                };
                proof {
                    use_type_invariant(&*self);
                    let j = entry_index(old_v, key@);
                    assert(old_v[j].0 == key@);
                    if j != i {
                        assert(old_e[j].0@ != old_e[i as int].0@);
                    }
                    assert forall|a: int, b: int| 0 <= a < self.entries().len() && 0 <= b < self.entries().len() && a != b
                        implies #[trigger] self.entries()[a].0 != #[trigger] self.entries()[b].0 by {
                        assert(self.entries@[a].0@ != self.entries@[b].0@);
                    }
                }
                r
            },
            None => {
                proof {
                    assert forall|a: int, b: int| 0 <= a < self.entries().len() && 0 <= b < self.entries().len() && a != b
                        implies #[trigger] self.entries()[a].0 != #[trigger] self.entries()[b].0 by {
                        assert(self.entries@[a].0@ != self.entries@[b].0@);
                    }
                }
                None
            },
        }
    }
}

impl<T> RouteCache<T> {
    /// Removes the entry for `key`; true when there was one.
    pub fn remove(&mut self, key: &str) -> (r: bool)
        ensures
            r == has_entry(old(self).entries(), key@),
            !r ==> final(self).entries() == old(self).entries(),
            r ==> exists|i: int| 0 <= i < old(self).entries().len() && old(self).entries()[i].0 == key@
                && final(self).entries() == old(self).entries().remove(i),
            final(self).entries() == cache_drop(old(self).entries(), key@),
            !has_entry(final(self).entries(), key@),
            keys_unique(old(self).entries()),
            keys_unique(final(self).entries()),
            final(self).ttl_nanos() == old(self).ttl_nanos(),
            final(self).stamps() == if r { old(self).stamps().remove(entry_index(old(self).entries(), key@)) }
                else { old(self).stamps() },
    {
        proof { use_type_invariant(&*self); }
        let ghost old_v = self.entries();
        let ghost old_e = self.entries@;
        match self.find(key) {
            Some(i) => {
                assert(old_v[i as int].0 == key@);
                proof {
                    let j = entry_index(old_v, key@);
                    if j != i {
                        assert(old_e[j].0@ != old_e[i as int].0@);
                    }
                }
                self.remove_at(i);
                proof {
                    if has_entry(self.entries(), key@) {
                        let k = choose|k: int| 0 <= k < self.entries().len() && self.entries()[k].0 == key@;
                        let k0 = if k < i { k } else { k + 1 };
                        assert(self.entries()[k] == old_v[k0]);
                        assert(old_e[k0].0@ != old_e[i as int].0@);
                    }
                }
                true
            },
            None => false,
        }
    }

    /// Removes every entry.
    pub fn clear(&mut self)
        ensures
            final(self).entries() == Seq::<(Seq<char>, T)>::empty(),
            final(self).stamps() == Seq::<Instant>::empty(),
            final(self).ttl_nanos() == old(self).ttl_nanos(),
    {
        self.entries = Vec::new();
        assert(self.entries() =~= Seq::<(Seq<char>, T)>::empty());
        assert(self.stamps() =~= Seq::<Instant>::empty());
    }

    /// Removes the entries whose time to live has passed. Their ages are read from the clock,
    /// and `cleanup_with` decides with them.
    pub fn cleanup_expired(&mut self)
        ensures
            exists|elapsed: Seq<u128>| elapsed.len() == old(self).entries().len()
                && final(self).entries() == live_entries(old(self).entries(), elapsed, old(self).ttl_nanos(), 0),
            old(self).ttl_nanos() == 0 ==> final(self).entries().len() == 0,
            final(self).ttl_nanos() == old(self).ttl_nanos(),
            keys_unique(final(self).entries()),
    {
        let mut elapsed: Vec<u128> = Vec::new();
        let mut i: usize = 0;
        while i < self.entries.len()
            invariant
                i <= self.entries@.len(),
                elapsed@.len() == i,
            decreases self.entries@.len() - i,
        {
            elapsed.push(self.entries[i].1.elapsed_nanos());
            i = i + 1;
        }
        assert(self.entries().len() == self.entries@.len());
        self.cleanup_with(&elapsed);
        proof {
            if old(self).ttl_nanos() == 0 {
                lemma_none_live(old(self).entries(), elapsed@, 0);
            }
        }
    }

    /// Removes the entries whose age in `elapsed` (one per entry, in order) has reached the
    /// time to live, keeping the others in order.
    pub fn cleanup_with(&mut self, elapsed: &Vec<u128>)
        requires
            elapsed@.len() == old(self).entries().len(),
        ensures
            final(self).entries() == live_entries(old(self).entries(), elapsed@, old(self).ttl_nanos(), 0),
            final(self).ttl_nanos() == old(self).ttl_nanos(),
            keys_unique(final(self).entries()),
    {
        let ghost old_v = self.entries();
        let ttl = duration_as_nanos(&self.ttl);
        let mut i: usize = self.entries.len();
        assert(old_v.subrange(0, i as int) + live_entries(old_v, elapsed@, ttl, i as int) =~= old_v);
        while i > 0
            invariant
                i <= old_v.len(),
                elapsed@.len() == old_v.len(),
                self.ttl == old(self).ttl,
                ttl == duration_nanos(self.ttl),
                self.entries().len() == self.entries@.len(),
                self.entries() == old_v.subrange(0, i as int) + live_entries(old_v, elapsed@, ttl, i as int),
            decreases i,
        {
            i = i - 1;
            let ghost before = self.entries();
            assert(live_entries(old_v, elapsed@, ttl, i as int) == (if elapsed@[i as int] < ttl { seq![old_v[i as int]] }
                else { Seq::empty() }) + live_entries(old_v, elapsed@, ttl, i + 1));
            if expired_after(elapsed[i], ttl) {
                self.remove_at(i);
                assert(self.entries() =~= old_v.subrange(0, i as int) + live_entries(old_v, elapsed@, ttl, i as int));
            } else {
                assert(before =~= old_v.subrange(0, i as int) + live_entries(old_v, elapsed@, ttl, i as int));
            }
        }
        assert(self.entries() =~= live_entries(old_v, elapsed@, ttl, 0));
        proof {
            use_type_invariant(&*self);
            assert forall|a: int, b: int| 0 <= a < self.entries().len() && 0 <= b < self.entries().len() && a != b
                implies #[trigger] self.entries()[a].0 != #[trigger] self.entries()[b].0 by {
                assert(self.entries@[a].0@ != self.entries@[b].0@);
            }
        }
    }

    /// Number of entries, expired or not.
    pub fn size(&self) -> (r: usize)
        ensures
            r == self.entries().len(),
            keys_unique(self.entries()),
    {
        proof {
            use_type_invariant(self);
            assert forall|a: int, b: int| 0 <= a < self.entries().len() && 0 <= b < self.entries().len() && a != b
                implies #[trigger] self.entries()[a].0 != #[trigger] self.entries()[b].0 by {
                assert(self.entries@[a].0@ != self.entries@[b].0@);
            }
        }
        self.entries.len()
    }
}

/// With a time to live of zero no entry is alive.
proof fn lemma_none_live<V>(e: Seq<(Seq<char>, V)>, elapsed: Seq<u128>, i: int)
    requires
        0 <= i,
    ensures
        live_entries(e, elapsed, 0, i).len() == 0,
    decreases e.len() - i,
{
    if i < e.len() {
        lemma_none_live(e, elapsed, i + 1);
    }
}

/// Settings for the caching and batching optimisations.
#[derive(Debug, Clone)]
pub struct PerformanceOptions {
    /// Whether the cache is used.
    pub enable_cache: bool,
    /// Time to live of cache entries.
    pub cache_ttl: Duration,
    /// Whether batch operations are used.
    pub enable_batch_operations: bool,
    /// Largest batch.
    pub max_batch_size: usize,
}

impl Default for PerformanceOptions {
    fn default() -> (r: PerformanceOptions)
        ensures
            r.enable_cache && r.enable_batch_operations && r.max_batch_size == 1000,
    {
        PerformanceOptions {
            enable_cache: true,
            cache_ttl: duration_from_secs(60),
            enable_batch_operations: true,
            max_batch_size: 1000,
        }
    }
}

/// Operations on many routes of a route table at once.
pub struct BatchOperations;

impl BatchOperations {
    /// Stores each of `routes` in `table`, as `RouteTable::batch_insert` does.
    pub fn batch_insert<R>(table: &mut RouteTable<R>, routes: Vec<(String, R)>)
        requires
            old(table).wf(),
            old(table).counter() + routes@.len() <= usize::MAX,
        ensures
            final(table).wf(),
            old(table).counter() <= final(table).counter() <= old(table).counter() + routes@.len(),
            routes@.len() > 0 && no_wildcard(segments(routes@.last().0@)) ==> (final(table).lookup(routes@.last().0@)
                matches Some((x, _)) && *x == routes@.last().1),
            final(table).cached() == old(table).cached(),
            final(table).cache_counters() == old(table).cache_counters(),
    {
        table.batch_insert(routes);
    }

    /// Removes the route stored for each of `paths`, in order; gives how many there were.
    /// Each path's cached lookup is dropped.
    pub fn batch_remove<R>(table: &mut RouteTable<R>, paths: Vec<String>) -> (r: usize)
        requires
            old(table).wf(),
            old(table).counts_cover(),
        ensures
            final(table).wf(),
            final(table).counts_cover(),
            r <= paths@.len(),
            final(table).counter() + r == old(table).counter(),
            forall|k: int| 0 <= k < paths@.len() ==> !has_entry(final(table).cached(), #[trigger] paths@[k]@),
            final(table).cache_counters() == old(table).cache_counters(),
            forall|k: int| 0 <= k < paths@.len() && all_static(segments(#[trigger] paths@[k]@))
                ==> final(table).trees()[RouteTable::<R>::home_shard(paths@[k]@)].stored_route(paths@[k]@) is None,
            static_batch(old(table).trees(), paths@) ==> r == stored_count(old(table).trees(), paths@, paths@.len() as int),
    {
        let mut count: usize = 0;
        let mut i: usize = 0;
        while i < paths.len()
            invariant
                table.wf(),
                table.counts_cover(),
                i <= paths@.len(),
                count <= i,
                table.counter() + count == old(table).counter(),
                forall|k: int| 0 <= k < i ==> !has_entry(table.cached(), #[trigger] paths@[k]@),
                table.cache_counters() == old(table).cache_counters(),
                forall|k: int| 0 <= k < i && all_static(segments(#[trigger] paths@[k]@))
                    ==> table.trees()[RouteTable::<R>::home_shard(paths@[k]@)].stored_route(paths@[k]@) is None,
                static_batch(old(table).trees(), paths@) ==> count == stored_count(old(table).trees(), paths@, i as int)
                    && (forall|k: int| i <= k < paths@.len() ==> #[trigger] table.trees()[RouteTable::<R>::home_shard(paths@[k]@)].stored_route(paths@[k]@)
                        == old(table).trees()[RouteTable::<R>::home_shard(paths@[k]@)].stored_route(paths@[k]@))
                    && (forall|t: int, q: Seq<char>| 0 <= t < NUM_SHARDS && #[trigger] table.trees()[t].stored_route(q) is Some
                        ==> all_static(segments(q))),
            decreases paths@.len() - i,
        {
            let ghost before = table.cached();
            let ghost trees0 = table.trees();
            let ghost p = paths@[i as int]@;
            let ghost h = RouteTable::<R>::home_shard(p);
            proof {
                if static_batch(old(table).trees(), paths@) {
                    assert(0 <= h < NUM_SHARDS);
                    table.lemma_trees_wf();
                    assert(trees0[h].wf());
                    assert forall|q: Seq<char>| #[trigger] trees0[h].stored_route(q) is Some implies all_static(segments(q)) by {
                        assert(table.trees()[h].stored_route(q) is Some);
                    }
                    lemma_static_tree_removable(trees0[h], p);
                }
            }
            let removed = table.remove(paths[i].as_str());
            if removed {
                count = count + 1;
            }
            proof {
                if static_batch(old(table).trees(), paths@) {
                    assert(removed == (trees0[h].stored_route(p) is Some));
                    assert(trees0[h].stored_route(p) == old(table).trees()[h].stored_route(p));
                    assert(stored_count(old(table).trees(), paths@, i + 1) == stored_count(old(table).trees(), paths@, i as int)
                        + if old(table).trees()[h].stored_route(p) is Some { 1nat } else { 0nat });
                    assert forall|k: int| i + 1 <= k < paths@.len() implies #[trigger] table.trees()[RouteTable::<R>::home_shard(paths@[k]@)].stored_route(paths@[k]@)
                        == old(table).trees()[RouteTable::<R>::home_shard(paths@[k]@)].stored_route(paths@[k]@) by {
                        let hk = RouteTable::<R>::home_shard(paths@[k]@);
                        assert(0 <= hk < NUM_SHARDS);
                        assert(trees0[hk].stored_route(paths@[k]@) == old(table).trees()[hk].stored_route(paths@[k]@));
                        if hk == h {
                            assert(segments(paths@[k]@) != segments(p));
                            assert(all_static(segments(paths@[k]@)));
                            if may_name(segments(p), segments(paths@[k]@), 0) {
                                let sq = segments(paths@[k]@);
                                assert forall|kk: int| 0 <= kk < sq.len() implies sq[kk] == segments(p)[kk] by {
                                    assert(is_static_segment(sq[kk]));
                                }
                                assert(sq =~= segments(p));
                            }
                        }
                    }
                    assert forall|t: int, q: Seq<char>| 0 <= t < NUM_SHARDS && #[trigger] table.trees()[t].stored_route(q) is Some
                        implies all_static(segments(q)) by {
                        if t == h {
                            assert(table.trees()[t].stored_route(q) == trees0[t].stored_route(q) || table.trees()[t].stored_route(q) is None);
                        } else {
                            assert(table.trees()[t] == trees0[t]);
                        }
                    }
                }
            }
            proof {
                assert forall|k: int| 0 <= k < i + 1 && all_static(segments(#[trigger] paths@[k]@))
                    implies table.trees()[RouteTable::<R>::home_shard(paths@[k]@)].stored_route(paths@[k]@) is None by {
                    let hk = RouteTable::<R>::home_shard(paths@[k]@);
                    let hi = RouteTable::<R>::home_shard(paths@[i as int]@);
                    if k < i {
                        if hk == hi {
                            assert(table.trees()[hk].stored_route(paths@[k]@) == trees0[hk].stored_route(paths@[k]@)
                                || table.trees()[hk].stored_route(paths@[k]@) is None);
                        } else {
                            assert(0 <= hk < NUM_SHARDS);
                            assert(table.trees()[hk] == trees0[hk]);
                        }
                    } else {
                        assert(table.trees()[hi].stored_route(paths@[i as int]@) == trees0[hi].stored_route(paths@[i as int]@)
                            || table.trees()[hi].stored_route(paths@[i as int]@) is None);
                    }
                }
                assert forall|k: int| 0 <= k < i + 1 implies !has_entry(table.cached(), #[trigger] paths@[k]@) by {
                    if k < i && has_entry(table.cached(), paths@[k]@) {
                        let j = choose|j: int| 0 <= j < table.cached().len() && table.cached()[j].0 == paths@[k]@;
                        let e = entry_index(before, paths@[i as int]@);
                        let j0 = if j < e { j } else { j + 1 };
                        assert(before[j0] == table.cached()[j]);
                    }
                }
            }
            i = i + 1;
        }
        count
    }

    /// For each of `paths`, in order, the path and whether a lookup in its shard finds a
    /// route.
    pub fn batch_contains<R>(table: &RouteTable<R>, paths: Vec<String>) -> (r: Vec<(String, bool)>)
        requires
            table.wf(),
        ensures
            r@.len() == paths@.len(),
            forall|k: int| 0 <= k < paths@.len() ==> (#[trigger] r@[k]).0@ == paths@[k]@
                && r@[k].1 == table.lookup(paths@[k]@) is Some,
    {
        let mut result: Vec<(String, bool)> = Vec::new();
        let mut i: usize = 0;
        while i < paths.len()
            invariant
                table.wf(),
                i <= paths@.len(),
                result@.len() == i,
                forall|k: int| 0 <= k < i ==> (#[trigger] result@[k]).0@ == paths@[k]@
                    && result@[k].1 == table.lookup(paths@[k]@) is Some,
            decreases paths@.len() - i,
        {
            let found = table.contains(paths[i].as_str());
            result.push((paths[i].clone(), found));
            i = i + 1;
        }
        result
    }
}

} // verus!

//! Cache statistics and a size-bounded cache that evicts its least used entry.
use vstd::prelude::*;
use crate::text::{bump, bump_exec, str_eq, owned};

verus! {

/// `x + d` in wrapping `usize` arithmetic.
pub open spec fn wrapping_add_int(x: usize, d: int) -> usize {
    ((x as int + d) % (usize::MAX as int + 1)) as usize
}

/// Adds `d` to `x`, wrapping around.
fn wrap_add(x: usize, d: usize) -> (r: usize)
    ensures
        r == wrapping_add_int(x, d as int),
    no_unwind
{
    if x > usize::MAX - d {
        let r = d - (usize::MAX - x) - 1;
        assert((x as int + d as int) % (usize::MAX as int + 1) == r as int) by (nonlinear_arith)
            requires x > usize::MAX - d, r == d - (usize::MAX - x) - 1, x <= usize::MAX, d <= usize::MAX;
        r
    } else {
        let r = x + d;
        assert((x as int + d as int) % (usize::MAX as int + 1) == r as int) by (nonlinear_arith)
            requires r == x + d, r <= usize::MAX;
        r
    }
}

/// Subtracts `d` from `x`, wrapping around.
fn wrap_sub(x: usize, d: usize) -> (r: usize)
    ensures
        r == wrapping_add_int(x, -(d as int)),
    no_unwind
{
    if x >= d {
        let r = x - d;
        assert((x as int - d as int) % (usize::MAX as int + 1) == r as int) by (nonlinear_arith)
            requires r == x - d, x >= d, x <= usize::MAX;
        r
    } else {
        let r = usize::MAX - (d - x) + 1;
        assert((x as int - d as int) % (usize::MAX as int + 1) == r as int) by (nonlinear_arith)
            requires x < d, r == usize::MAX - (d - x) + 1, d <= usize::MAX;
        r
    }
}

/// Counters of cache activity.
#[derive(Debug)]
pub struct LockfreeCacheStats {
    /// Lookups that found a value.
    pub hits: usize,
    /// Lookups that found none.
    pub misses: usize,
    /// Entries evicted to make room.
    pub evictions: usize,
    /// Current number of entries.
    pub size: usize,
    /// All lookups.
    pub total_queries: usize,
}

/// A copy of the counters at one moment.
#[derive(Debug, Clone)]
pub struct CacheStatsSnapshot {
    pub hits: usize,
    pub misses: usize,
    pub evictions: usize,
    pub size: usize,
    pub total_queries: usize,
}

impl Default for LockfreeCacheStats {
    fn default() -> (r: LockfreeCacheStats)
        ensures
            r.hits == 0 && r.misses == 0 && r.evictions == 0 && r.size == 0 && r.total_queries == 0,
    {
        LockfreeCacheStats { hits: 0, misses: 0, evictions: 0, size: 0, total_queries: 0 }
    }
}

impl LockfreeCacheStats {
    /// Counts a lookup that found a value.
    pub fn record_hit(&mut self)
        ensures
            *final(self) == (LockfreeCacheStats { hits: bump(old(self).hits), total_queries: bump(old(self).total_queries), ..*old(self) }),
            old(self).total_queries == old(self).hits + old(self).misses && old(self).total_queries < usize::MAX
                ==> final(self).total_queries == final(self).hits + final(self).misses,
        no_unwind
    {
        self.hits = bump_exec(self.hits);
        self.total_queries = bump_exec(self.total_queries);
    }

    /// Counts a lookup that found none.
    pub fn record_miss(&mut self)
        ensures
            *final(self) == (LockfreeCacheStats { misses: bump(old(self).misses), total_queries: bump(old(self).total_queries), ..*old(self) }),
            old(self).total_queries == old(self).hits + old(self).misses && old(self).total_queries < usize::MAX
                ==> final(self).total_queries == final(self).hits + final(self).misses,
        no_unwind
    {
        self.misses = bump_exec(self.misses);
        self.total_queries = bump_exec(self.total_queries);
    }

    /// Counts an eviction.
    pub fn record_eviction(&mut self)
        ensures
            *final(self) == (LockfreeCacheStats { evictions: bump(old(self).evictions), ..*old(self) }),
        no_unwind
    {
        self.evictions = bump_exec(self.evictions);
    }

    /// Changes the size by `delta`, wrapping around.
    pub fn update_size(&mut self, delta: isize)
        requires
            delta != isize::MIN,
        ensures
            *final(self) == (LockfreeCacheStats { size: wrapping_add_int(old(self).size, delta as int), ..*old(self) }),
        no_unwind
    {
        if delta > 0 {
            self.size = wrap_add(self.size, delta as usize);
        } else {
            self.size = wrap_sub(self.size, (-delta) as usize);
        }
    }

    /// A copy of the counters.
    pub fn snapshot(&self) -> (r: CacheStatsSnapshot)
        ensures
            r == (CacheStatsSnapshot { hits: self.hits, misses: self.misses, evictions: self.evictions,
                size: self.size, total_queries: self.total_queries }),
    {
        CacheStatsSnapshot {
            hits: self.hits,
            misses: self.misses,
            evictions: self.evictions,
            size: self.size,
            total_queries: self.total_queries,
        }
    }
}

/// Keys of `LockfreeLruCache`: text compared by content.
pub trait CacheKey: Sized {
    /// The text of the key.
    spec fn key_view(&self) -> Seq<char>;

    /// Whether two keys have the same text.
    fn same_key(&self, other: &Self) -> (r: bool)
        ensures
            r == (self.key_view() == other.key_view());

    /// A copy of the key.
    fn copy_key(&self) -> (r: Self)
        ensures
            r.key_view() == self.key_view();
}

impl<'a> CacheKey for &'a str {
    open spec fn key_view(&self) -> Seq<char> {
        (**self)@
    }

    fn same_key(&self, other: &Self) -> (r: bool) {
        str_eq(*self, *other)
    }

    fn copy_key(&self) -> (r: Self) {
        *self
    }
}

impl CacheKey for String {
    open spec fn key_view(&self) -> Seq<char> {
        self@
    }

    fn same_key(&self, other: &Self) -> (r: bool) {
        str_eq(self.as_str(), other.as_str())
    }

    fn copy_key(&self) -> (r: Self) {
        owned(self.as_str())
    }
}

/// A cached value with the number of times it was looked up (starting at one).
#[derive(Debug)]
struct CacheEntry<V> {
    value: V,
    access_count: usize,
}

impl<V> CacheEntry<V> {
    fn new(value: V) -> (r: CacheEntry<V>)
        ensures
            r.value == value && r.access_count == 1,
    {
        CacheEntry { value, access_count: 1 }
    }

    fn touch(&mut self)
        ensures
            final(self).value == old(self).value,
            final(self).access_count == bump(old(self).access_count),
    {
        self.access_count = bump_exec(self.access_count);
    }

    fn access_count(&self) -> (r: usize)
        ensures
            r == self.access_count,
    {
        self.access_count
    }
}

/// The entry `LockfreeLruCache` evicts among the first `n` entries (key, value, access count):
/// the first one with a count below every earlier count, starting the search below `usize::MAX`.
pub open spec fn lru_pick<V>(e: Seq<(Seq<char>, V, usize)>, n: int) -> Option<int>
    decreases n,
{
    if n <= 0 {
        None
    } else {
        let p = lru_pick(e, n - 1);
        let cur = match p { Some(m) => e[m].2, None => usize::MAX };
        if e[n - 1].2 < cur { Some(n - 1) } else { p }
    }
}

proof fn lemma_lru_pick_range<V>(e: Seq<(Seq<char>, V, usize)>, n: int)
    requires
        0 <= n <= e.len(),
    ensures
        match lru_pick(e, n) { Some(m) => 0 <= m < n, None => true },
    decreases n,
{
    if n > 0 {
        lemma_lru_pick_range(e, n - 1);
    }
}

/// A count below `usize::MAX` among the first `n` entries means there is an entry to evict.
proof fn lemma_lru_pick_some<V>(e: Seq<(Seq<char>, V, usize)>, n: int, i: int)
    requires
        0 <= i < n <= e.len(),
        e[i].2 < usize::MAX,
    ensures
        lru_pick(e, n) is Some,
    decreases n,
{
    if i < n - 1 {
        lemma_lru_pick_some(e, n - 1, i);
    }
}

/// No two entries of `e` share a key.
pub open spec fn lru_keys_unique<V>(e: Seq<(Seq<char>, V, usize)>) -> bool {
    forall|i: int, j: int| 0 <= i < e.len() && 0 <= j < e.len() && i != j ==> #[trigger] e[i].0 != #[trigger] e[j].0
}

/// The keys of `e`.
pub open spec fn lru_key_set<V>(e: Seq<(Seq<char>, V, usize)>) -> Set<Seq<char>> {
    e.map_values(|x: (Seq<char>, V, usize)| x.0).to_set()
}

/// Whether an entry of `e` has key `k`.
pub open spec fn lru_has<V>(e: Seq<(Seq<char>, V, usize)>, k: Seq<char>) -> bool {
    exists|i: int| 0 <= i < e.len() && e[i].0 == k
}

/// The position of the entry with key `k` (meaningful when `lru_has(e, k)`).
pub open spec fn lru_index<V>(e: Seq<(Seq<char>, V, usize)>, k: Seq<char>) -> int {
    choose|i: int| 0 <= i < e.len() && e[i].0 == k
}

/// A cache holding at most `max_size` entries (when room is needed, the least used entry is
/// evicted), with counters of its activity.
pub struct LockfreeLruCache<K: CacheKey, V> {
    data: Vec<(K, CacheEntry<V>)>,
    max_size: usize,
    stats: LockfreeCacheStats,
}

spec fn lru_entries<K: CacheKey, V>(d: Seq<(K, CacheEntry<V>)>) -> Seq<(Seq<char>, V, usize)> {
    d.map_values(|x: (K, CacheEntry<V>)| (x.0.key_view(), x.1.value, x.1.access_count))
}

impl<K: CacheKey, V> LockfreeLruCache<K, V> {
    /// The cache's invariant: each key occurs once and the size counter is the number of entries.
    pub closed spec fn wf(&self) -> bool {
        &&& forall|i: int, j: int| 0 <= i < self.entries().len() && 0 <= j < self.entries().len() && i != j
            ==> #[trigger] self.entries()[i].0 != #[trigger] self.entries()[j].0
        &&& self.stats.size == self.data@.len()
    }

    /// In a well-formed cache no two entries share a key, so the number of entries is the
    /// number of distinct keys that have an entry (those a `get` finds).
    pub proof fn lemma_keys_unique(&self)
        requires
            self.wf(),
        ensures
            lru_keys_unique(self.entries()),
            lru_key_set(self.entries()) == Set::new(|k: Seq<char>| lru_has(self.entries(), k)),
            lru_key_set(self.entries()).len() == self.entries().len(),
    {
        let e = self.entries();
        let ks = e.map_values(|x: (Seq<char>, V, usize)| x.0);
        assert(ks.no_duplicates()) by {
            assert forall|i: int, j: int| 0 <= i < ks.len() && 0 <= j < ks.len() && i != j implies ks[i] != ks[j] by {
                assert(e[i].0 != e[j].0);
            }
        }
        ks.unique_seq_to_set();
        assert(lru_key_set(e) =~= Set::new(|k: Seq<char>| lru_has(e, k))) by {
            assert forall|k: Seq<char>| lru_key_set(e).contains(k) <==> lru_has(e, k) by {
                if lru_key_set(e).contains(k) {
                    let i = choose|i: int| 0 <= i < ks.len() && ks[i] == k;
                    assert(e[i].0 == k);
                }
                if lru_has(e, k) {
                    let i = choose|i: int| 0 <= i < e.len() && e[i].0 == k;
                    assert(ks[i] == k);
                }
            }
        }
    }

    /// The entries (key text, value, access count) in insertion order.
    pub closed spec fn entries(&self) -> Seq<(Seq<char>, V, usize)> {
        lru_entries(self.data@)
    }

    /// The counters.
    pub closed spec fn counters(&self) -> LockfreeCacheStats {
        self.stats
    }

    /// The size limit.
    pub closed spec fn max(&self) -> usize {
        self.max_size
    }

    /// An empty cache for at most `max_size` entries.
    pub fn new(max_size: usize) -> (r: LockfreeLruCache<K, V>)
        ensures
            r.entries() == Seq::<(Seq<char>, V, usize)>::empty(),
            r.counters() == (LockfreeCacheStats { hits: 0, misses: 0, evictions: 0, size: 0, total_queries: 0 }),
            r.max() == max_size,
            r.wf(),
    {
        let r = LockfreeLruCache { data: Vec::new(), max_size, stats: LockfreeCacheStats::default() };
        assert(r.entries() =~= Seq::<(Seq<char>, V, usize)>::empty());
        r
    }

    fn find(&self, key: &K) -> (r: Option<usize>)
        requires
            self.wf(),
        ensures
            match r {
                Some(i) => i < self.data@.len() && self.entries()[i as int].0 == key.key_view()
                    && i == lru_index(self.entries(), key.key_view()),
                None => !lru_has(self.entries(), key.key_view()),
            },
    {
        let mut i: usize = 0;
        while i < self.data.len()
            invariant
                self.wf(),
                i <= self.data@.len(),
                self.entries().len() == self.data@.len(),
                forall|j: int| 0 <= j < i ==> self.entries()[j].0 != key.key_view(),
            decreases self.data.len() - i,
        {
            let same = self.data[i].0.same_key(key);
            assert(self.entries()[i as int].0 == self.data@[i as int].0.key_view());
            if same {
                proof {
                    let j = lru_index(self.entries(), key.key_view());
                    assert(self.entries()[i as int].0 == key.key_view());
                    if j != i {
                        assert(self.entries()[j].0 != self.entries()[i as int].0);
                    }
                }
                return Some(i);
            }
            i = i + 1;
        }
        None
    }

    /// The value under `key`, counting a hit (and one more use of the entry) or a miss.
    pub fn get(&mut self, key: &K) -> (r: Option<V>)
        where V: Clone,
        requires
            old(self).wf(),
        ensures
            final(self).wf(),
            final(self).max() == old(self).max(),
            !lru_has(old(self).entries(), key.key_view()) ==> r is None
                && final(self).entries() == old(self).entries()
                && final(self).counters() == (LockfreeCacheStats { misses: bump(old(self).counters().misses),
                    total_queries: bump(old(self).counters().total_queries), ..old(self).counters() }),
            lru_has(old(self).entries(), key.key_view()) ==> {
                let i = lru_index(old(self).entries(), key.key_view());
                let e = old(self).entries()[i];
                &&& r is Some && cloned::<V>(e.1, r->0)
                &&& final(self).entries() == old(self).entries().update(i, (e.0, e.1, bump(e.2)))
                &&& final(self).counters() == (LockfreeCacheStats { hits: bump(old(self).counters().hits),
                    total_queries: bump(old(self).counters().total_queries), ..old(self).counters() })
            },
    {
        match self.find(key) {
            Some(i) => {
                let ghost old_d = self.data@;
                self.stats.record_hit();
                let v = self.data[i].1.value.clone();
                let mut data: Vec<(K, CacheEntry<V>)> = Vec::new();
                std::mem::swap(&mut data, &mut self.data);
                let (k, mut entry) = data.remove(i);
                entry.touch();
                data.insert(i, (k, entry));
                proof {
                    assert(lru_entries(data@) =~= lru_entries(old_d).update(i as int,
                        (old_d[i as int].0.key_view(), old_d[i as int].1.value, bump(old_d[i as int].1.access_count))));
                }
                self.data = data;
                Some(v)
            },
            None => {
                self.stats.record_miss();
                None
            },
        }
    }

    fn evict_lru(&mut self)
        requires
            old(self).wf(),
        ensures
            final(self).wf(),
            final(self).max() == old(self).max(),
            match lru_pick(old(self).entries(), old(self).entries().len() as int) {
                Some(m) => final(self).entries() == old(self).entries().remove(m)
                    && final(self).counters() == (LockfreeCacheStats { evictions: bump(old(self).counters().evictions),
                        size: (old(self).counters().size - 1) as usize, ..old(self).counters() }),
                None => final(self).entries() == old(self).entries() && final(self).counters() == old(self).counters(),
            },
    {
        let ghost e = self.entries();
        if self.data.len() == 0 {
            return;
        }
        let mut lru: Option<usize> = None;
        let mut min_access: usize = usize::MAX;
        let mut i: usize = 0;
        while i < self.data.len()
            invariant
                e == self.entries(),
                e.len() == self.data@.len(),
                i <= self.data@.len(),
                lru == match lru_pick(e, i as int) { Some(m) => Some(m as usize), None => None::<usize> },
                min_access == match lru_pick(e, i as int) { Some(m) => e[m].2, None => usize::MAX },
                forall|m: int| lru_pick(e, i as int) == Some(m) ==> 0 <= m < i,
            decreases self.data.len() - i,
        {
            proof { lemma_lru_pick_range(e, i + 1); }
            let c = self.data[i].1.access_count();
            assert(e[i as int].2 == c);
            if c < min_access {
                min_access = c;
                lru = Some(i);
            }
            i = i + 1;
        }
        match lru {
            Some(m) => {
                let ghost old_d = self.data@;
                self.data.remove(m);
                assert(self.entries() =~= e.remove(m as int));
                self.stats.record_eviction();
                self.stats.update_size(-1);
                proof {
                    assert forall|a: int, b: int| 0 <= a < self.entries().len() && 0 <= b < self.entries().len() && a != b
                        implies #[trigger] self.entries()[a].0 != #[trigger] self.entries()[b].0 by {
                        let a0 = if a < m { a } else { a + 1 };
                        let b0 = if b < m { b } else { b + 1 };
                        assert(self.entries()[a] == e[a0]);
                        assert(self.entries()[b] == e[b0]);
                    };
                    let sz0 = old(self).stats.size;
                    assert(wrapping_add_int(sz0, -1) == (sz0 - 1) as usize) by (nonlinear_arith)
                        requires sz0 >= 1;
                }
            },
            None => {},
        }
    }

    /// Stores `value` under `key` with an access count of one. When the cache is full and
    /// `key` is new, the least used entry is evicted first.
    pub fn insert(&mut self, key: K, value: V)
        requires
            old(self).wf(),
        ensures
            final(self).wf(),
            final(self).max() == old(self).max(),
            final(self).counters().hits == old(self).counters().hits,
            final(self).counters().misses == old(self).counters().misses,
            final(self).counters().total_queries == old(self).counters().total_queries,
            final(self).counters().size == final(self).entries().len(),
            lru_has(old(self).entries(), key.key_view()) ==>
                final(self).entries() == old(self).entries().update(lru_index(old(self).entries(), key.key_view()), (key.key_view(), value, 1usize))
                && final(self).counters().evictions == old(self).counters().evictions,
            !lru_has(old(self).entries(), key.key_view()) && old(self).entries().len() < old(self).max() ==>
                final(self).entries() == old(self).entries().push((key.key_view(), value, 1usize))
                && final(self).counters().evictions == old(self).counters().evictions,
            !lru_has(old(self).entries(), key.key_view()) && old(self).entries().len() >= old(self).max() ==>
                match lru_pick(old(self).entries(), old(self).entries().len() as int) {
                    Some(m) => final(self).entries() == old(self).entries().remove(m).push((key.key_view(), value, 1usize))
                        && final(self).counters().evictions == bump(old(self).counters().evictions),
                    None => final(self).entries() == old(self).entries().push((key.key_view(), value, 1usize))
                        && final(self).counters().evictions == old(self).counters().evictions,
                },
            lru_has(final(self).entries(), key.key_view()),
            final(self).entries()[lru_index(final(self).entries(), key.key_view())] == (key.key_view(), value, 1usize),
            old(self).entries().len() <= old(self).max() && (old(self).entries().len() < old(self).max()
                || exists|i: int| 0 <= i < old(self).entries().len() && #[trigger] old(self).entries()[i].2 < usize::MAX)
                ==> final(self).entries().len() <= old(self).max(),
    {
        let ghost e0 = self.entries();
        let found = self.find(&key);
        if self.data.len() >= self.max_size && found.is_none() {
            self.evict_lru();
        }
        let ghost e1 = self.entries();
        proof {
            lemma_lru_pick_range(e0, e0.len() as int);
            if exists|i: int| 0 <= i < e0.len() && #[trigger] e0[i].2 < usize::MAX {
                let w = choose|i: int| 0 <= i < e0.len() && #[trigger] e0[i].2 < usize::MAX;
                lemma_lru_pick_some(e0, e0.len() as int, w);
            }
            if found.is_none() {
                assert forall|i: int| 0 <= i < e1.len() implies e1[i].0 != key.key_view() by {
                    if found.is_none() && e0.len() >= self.max_size {
                        match lru_pick(e0, e0.len() as int) {
                            Some(m) => {
                                let i0 = if i < m { i } else { i + 1 };
                                assert(e1[i] == e0[i0]);
                            },
                            None => {},
                        }
                    }
                };
            }
        }
        let entry = CacheEntry::new(value);
        match found {
            Some(i) => {
                let ghost kk = key.key_view();
                self.data.set(i, (key, entry));
                proof {
                    assert(self.entries() =~= e0.update(i as int, (kk, value, 1usize)));
                    assert forall|a: int, b: int| 0 <= a < self.entries().len() && 0 <= b < self.entries().len() && a != b
                        implies #[trigger] self.entries()[a].0 != #[trigger] self.entries()[b].0 by {
                        assert(e0[a].0 != e0[b].0);
                    };
                    assert(self.entries()[i as int].0 == kk);
                    let j = lru_index(self.entries(), kk);
                    if j != i {
                        assert(self.entries()[j].0 != self.entries()[i as int].0);
                    }
                }
            },
            None => {
                let ghost kk = key.key_view();
                self.data.push((key, entry));
                proof {
                    assert(self.entries() =~= e1.push((kk, value, 1usize)));
                    assert forall|a: int, b: int| 0 <= a < self.entries().len() && 0 <= b < self.entries().len() && a != b
                        implies #[trigger] self.entries()[a].0 != #[trigger] self.entries()[b].0 by {
                        if a < e1.len() && b < e1.len() {
                            assert(e1[a].0 != e1[b].0);
                        } else if a < e1.len() {
                            assert(e1[a].0 != kk);
                        } else {
                            assert(e1[b].0 != kk);
                        }
                    };
                    let last = e1.len() as int;
                    assert(self.entries()[last].0 == kk);
                    let j = lru_index(self.entries(), kk);
                    if j != last {
                        assert(self.entries()[j].0 != self.entries()[last].0);
                    }
                }
                let total = self.data.len();
                assert(total == e1.len() + 1);
                let ghost n1 = e1.len();
                self.stats.update_size(1);
                assert(wrapping_add_int(n1 as usize, 1) == n1 + 1) by (nonlinear_arith)
                    requires n1 + 1 <= usize::MAX;
            },
        }
    }

    /// Removes the entry for `key` and hands back its value (`None` when the key is absent).
    pub fn remove(&mut self, key: &K) -> (r: Option<V>)
        requires
            old(self).wf(),
        ensures
            lru_has(old(self).entries(), key.key_view()) ==>
                r == Some(old(self).entries()[lru_index(old(self).entries(), key.key_view())].1),
            !lru_has(old(self).entries(), key.key_view()) ==> r is None,
            !lru_has(final(self).entries(), key.key_view()),
            final(self).wf(),
            final(self).max() == old(self).max(),
            final(self).counters().size == final(self).entries().len(),
            final(self).counters().hits == old(self).counters().hits,
            final(self).counters().misses == old(self).counters().misses,
            final(self).counters().evictions == old(self).counters().evictions,
            final(self).counters().total_queries == old(self).counters().total_queries,
            lru_has(old(self).entries(), key.key_view()) ==>
                final(self).entries() == old(self).entries().remove(lru_index(old(self).entries(), key.key_view())),
            !lru_has(old(self).entries(), key.key_view()) ==> final(self).entries() == old(self).entries(),
    {
        let ghost e = self.entries();
        match self.find(key) {
            Some(i) => {
                let (_, removed) = self.data.remove(i);
                assert(self.entries() =~= e.remove(i as int));
                self.stats.update_size(-1);
                proof {
                    assert forall|a: int, b: int| 0 <= a < self.entries().len() && 0 <= b < self.entries().len() && a != b
                        implies #[trigger] self.entries()[a].0 != #[trigger] self.entries()[b].0 by {
                        let a0 = if a < i { a } else { a + 1 };
                        let b0 = if b < i { b } else { b + 1 };
                        assert(self.entries()[a] == e[a0]);
                        assert(self.entries()[b] == e[b0]);
                    };
                    let sz0 = old(self).stats.size;
                    assert(wrapping_add_int(sz0, -1) == (sz0 - 1) as usize) by (nonlinear_arith)
                        requires sz0 >= 1;
                    if lru_has(self.entries(), key.key_view()) {
                        let j = lru_index(self.entries(), key.key_view());
                        let j0 = if j < i { j } else { j + 1 };
                        assert(self.entries()[j] == e[j0]);
                        assert(e[i as int].0 == key.key_view());
                    }
                }
                Some(removed.value)
            },
            None => None,
        }
    }

    /// Removes every entry.
    pub fn clear(&mut self)
        requires
            old(self).wf(),
        ensures
            final(self).wf(),
            final(self).max() == old(self).max(),
            final(self).entries() == Seq::<(Seq<char>, V, usize)>::empty(),
            final(self).counters() == (LockfreeCacheStats { size: 0, ..old(self).counters() }),
    {
        let old_size = self.data.len();
        self.data = Vec::new();
        self.stats.size = wrap_sub(self.stats.size, old_size);
        assert(wrapping_add_int(old_size, -(old_size as int)) == 0) by (nonlinear_arith);
        assert(self.entries() =~= Seq::<(Seq<char>, V, usize)>::empty());
    }

    /// Number of entries (the size counter).
    pub fn len(&self) -> (r: usize)
        requires
            self.wf(),
        ensures
            r == self.entries().len(),
            r == self.counters().size,
    {
        self.stats.size
    }

    /// Whether the cache is empty.
    pub fn is_empty(&self) -> (r: bool)
        requires
            self.wf(),
        ensures
            r == (self.entries().len() == 0),
    {
        self.len() == 0
    }

    /// The counters.
    pub fn stats(&self) -> (r: &LockfreeCacheStats)
        ensures
            *r == self.counters(),
    {
        &self.stats
    }
}

} // verus!

//! Pools of reusable strings and string vectors, and path helpers built on plain strings.
use vstd::prelude::*;
use crate::text::{segments, split_segments, trim, chars_of, push_char};
use crate::param_map::ParamMap;
use crate::string_optimized::collected;

verus! {

/// `Vec::capacity`: how many items fit before the vector reallocates. It is at least the
/// length; what the allocator handed out beyond that is not stated.
#[verifier::external_body]
fn vec_capacity<T>(v: &Vec<T>) -> (r: usize)
    ensures
        r >= v@.len(),
{
    v.capacity()
}

/// A stack of spare items with a capacity limit.
struct SimplePool<T> {
    items: Vec<T>,
}

impl<T> SimplePool<T> {
    /// An empty pool with room reserved for `capacity` items.
    fn new(capacity: usize) -> (r: SimplePool<T>)
        ensures
            r.items@.len() == 0,
    {
        SimplePool { items: Vec::with_capacity(capacity) }
    }

    /// Takes the most recently returned item, if any.
    fn take(&mut self) -> (r: Option<T>)
        ensures
            old(self).items@.len() == 0 ==> r is None && final(self).items@ == old(self).items@,
            old(self).items@.len() > 0 ==> r == Some(old(self).items@.last())
                && final(self).items@ == old(self).items@.drop_last(),
    {
        self.items.pop()
    }

    /// Returns an item to the pool while the pool has room for it; otherwise drops it. The
    /// room is what the allocator reserved, read with `vec_capacity`; `push_within` decides.
    fn push(&mut self, item: T)
        ensures
            final(self).items@ == old(self).items@.push(item) || final(self).items@ == old(self).items@,
    {
        let capacity = vec_capacity(&self.items);
        self.push_within(item, capacity);
    }

    /// Keeps `item` when fewer than `capacity` items are stored, else drops it.
    fn push_within(&mut self, item: T, capacity: usize)
        ensures
            old(self).items@.len() < capacity ==> final(self).items@ == old(self).items@.push(item),
            old(self).items@.len() >= capacity ==> final(self).items@ == old(self).items@,
    {
        if self.items.len() < capacity {
            self.items.push(item);
        }
    }
}

/// An item taken from a pool.
pub struct PooledItem<T> {
    item: T,
}

impl<T> PooledItem<T> {
    /// The item.
    pub closed spec fn value(&self) -> T {
        self.item
    }

    /// A shared reference to the item.
    pub fn get(&self) -> (r: &T)
        ensures
            *r == self.value(),
    {
        &self.item
    }

    /// The item, taken out of the wrapper.
    pub fn into_inner(self) -> (r: T)
        ensures
            r == self.value(),
    {
        self.item
    }
}

impl<T> std::ops::Deref for PooledItem<T> {
    type Target = T;

    fn deref(&self) -> (r: &T)
        ensures
            *r == self.value(),
    {
        &self.item
    }
}

impl<T> std::ops::DerefMut for PooledItem<T> {
    fn deref_mut(&mut self) -> (r: &mut T)
        ensures
            *r == old(self).value(),
            final(self).value() == *final(r),
    {
        &mut self.item
    }
}

/// Pools of reusable strings and string vectors.
pub struct RouteObjectPool {
    string_pool: SimplePool<String>,
    vec_pool: SimplePool<Vec<String>>,
}

impl RouteObjectPool {
    /// Number of spare strings.
    pub closed spec fn spare_strings(&self) -> nat {
        self.string_pool.items@.len()
    }

    /// Number of spare vectors.
    pub closed spec fn spare_vecs(&self) -> nat {
        self.vec_pool.items@.len()
    }

    /// Empty pools with room reserved for `string_pool_size` strings and `vec_pool_size` vectors.
    pub fn new(string_pool_size: usize, vec_pool_size: usize) -> (r: RouteObjectPool)
        ensures
            r.spare_strings() == 0,
            r.spare_vecs() == 0,
    {
        RouteObjectPool { string_pool: SimplePool::new(string_pool_size), vec_pool: SimplePool::new(vec_pool_size) }
    }

    /// An empty string, reused from the pool when it has one.
    pub fn pull_string(&mut self) -> (r: PooledItem<String>)
        ensures
            r.value()@ == Seq::<char>::empty(),
            final(self).spare_vecs() == old(self).spare_vecs(),
            old(self).spare_strings() > 0 ==> final(self).spare_strings() == old(self).spare_strings() - 1,
            old(self).spare_strings() == 0 ==> final(self).spare_strings() == 0,
    {
        let mut item = match self.string_pool.take() {
            Some(s) => s,
            None => String::new(),
        };
        crate::text::clear_string(&mut item);
        PooledItem { item }
    }

    /// An empty vector of strings, reused from the pool when it has one.
    pub fn pull_vec(&mut self) -> (r: PooledItem<Vec<String>>)
        ensures
            r.value()@.len() == 0,
            final(self).spare_strings() == old(self).spare_strings(),
            old(self).spare_vecs() > 0 ==> final(self).spare_vecs() == old(self).spare_vecs() - 1,
            old(self).spare_vecs() == 0 ==> final(self).spare_vecs() == 0,
    {
        let mut item = match self.vec_pool.take() {
            Some(v) => v,
            None => Vec::new(),
        };
        item.clear();
        PooledItem { item }
    }

    /// Returns a string to the pool while it has room for it.
    pub fn return_string(&mut self, s: String)
        ensures
            final(self).spare_strings() == old(self).spare_strings() + 1 || final(self).spare_strings() == old(self).spare_strings(),
            final(self).spare_vecs() == old(self).spare_vecs(),
    {
        self.string_pool.push(s);
    }

    /// Number of spare strings.
    pub fn string_pool_size(&self) -> (r: usize)
        ensures
            r == self.spare_strings(),
    {
        self.string_pool.items.len()
    }

    /// Number of spare vectors.
    pub fn vec_pool_size(&self) -> (r: usize)
        ensures
            r == self.spare_vecs(),
    {
        self.vec_pool.items.len()
    }
}

impl Default for RouteObjectPool {
    fn default() -> (r: RouteObjectPool)
        ensures
            r.spare_strings() == 0,
            r.spare_vecs() == 0,
    {
        Self::new(500, 200)
    }
}

/// Sizes of the object pools and whether they are used.
#[derive(Debug, Clone)]
pub struct PoolConfig {
    /// Room reserved in the string pool.
    pub string_pool_size: usize,
    /// Room reserved in the vector pool.
    pub vec_pool_size: usize,
    /// Whether pooling is used.
    pub enable_object_pool: bool,
}

impl Default for PoolConfig {
    fn default() -> (r: PoolConfig)
        ensures
            r.string_pool_size == 500 && r.vec_pool_size == 200 && r.enable_object_pool,
    {
        PoolConfig { string_pool_size: 500, vec_pool_size: 200, enable_object_pool: true }
    }
}

impl PoolConfig {
    /// The default configuration: 500 strings, 200 vectors, pooling on.
    pub fn new() -> (r: PoolConfig)
        ensures
            r.string_pool_size == 500 && r.vec_pool_size == 200 && r.enable_object_pool,
    {
        Self::default()
    }

    /// The configuration with another string pool size.
    pub fn with_string_pool_size(self, size: usize) -> (r: PoolConfig)
        ensures
            r == (PoolConfig { string_pool_size: size, ..self }),
    {
        let mut c = self;
        c.string_pool_size = size;
        c
    }

    /// The configuration with another vector pool size.
    pub fn with_vec_pool_size(self, size: usize) -> (r: PoolConfig)
        ensures
            r == (PoolConfig { vec_pool_size: size, ..self }),
    {
        let mut c = self;
        c.vec_pool_size = size;
        c
    }

    /// The configuration with pooling switched on or off.
    pub fn with_object_pool_enabled(self, enabled: bool) -> (r: PoolConfig)
        ensures
            r == (PoolConfig { enable_object_pool: enabled, ..self }),
    {
        let mut c = self;
        c.enable_object_pool = enabled;
        c
    }

    /// Empty pools sized by this configuration.
    pub fn build(&self) -> (r: RouteObjectPool)
        ensures
            r.spare_strings() == 0,
            r.spare_vecs() == 0,
    {
        RouteObjectPool::new(self.string_pool_size, self.vec_pool_size)
    }
}

/// The non-empty `/`-separated segments of `path`.
pub fn split_path_optimized(path: &str) -> (r: Vec<String>)
    ensures
        r@.len() == segments(path@).len(),
        forall|k: int| #![trigger r@[k]] 0 <= k < r@.len() ==> r@[k]@ == segments(path@)[k],
{
    split_segments(path)
}

/// `s` with every run of `/` shortened to one `/`.
#[verifier::opaque]
pub open spec fn collapse_slashes(s: Seq<char>) -> Seq<char>
    decreases s.len(),
{
    if s.len() == 0 {
        Seq::<char>::empty()
    } else {
        let c = collapse_slashes(s.drop_last());
        if s.last() == '/' && s.len() > 1 && s[s.len() - 2] == '/' {
            c
        } else {
            c.push(s.last())
        }
    }
}

/// The tidied form of a path: trimmed of white space, runs of `/` shortened to one, then a
/// trailing `/` removed (unless the path is just `/`).
pub open spec fn tidied_path(path: Seq<char>) -> Seq<char> {
    let c = collapse_slashes(crate::text::trimmed(path));
    if c.len() > 1 && c.last() == '/' { c.drop_last() } else { c }
}

/// Tidies a path: trims white space, collapses repeated `/` and drops a trailing `/`.
pub fn normalize_path_optimized(path: &str) -> (r: String)
    ensures
        r@ == tidied_path(path@),
{
    let t = trim(path);
    let v = chars_of(t.as_str());
    let w = collapse_runs(&v);
    let m = if w.len() > 1 && w[w.len() - 1] == '/' { w.len() - 1 } else { w.len() };
    let mut out = String::new();
    let mut j: usize = 0;
    while j < m
        invariant
            m <= w@.len(),
            j <= m,
            out@ == w@.subrange(0, j as int),
        decreases m - j,
    {
        push_char(&mut out, w[j]);
        assert(w@.subrange(0, j + 1) =~= w@.subrange(0, j as int).push(w@[j as int]));
        j = j + 1;
    }
    assert(w@.subrange(0, m as int) =~= tidied_path(path@));
    out
}

/// The characters of `v` with every run of `/` shortened to one.
fn collapse_runs(v: &Vec<char>) -> (w: Vec<char>)
    ensures
        w@ == collapse_slashes(v@),
{
    let mut w: Vec<char> = Vec::new();
    let mut i: usize = 0;
    proof {
        reveal(collapse_slashes);
        assert(v@.subrange(0, 0) =~= Seq::<char>::empty());
    }
    while i < v.len()
        invariant
            i <= v@.len(),
            w@ == collapse_slashes(v@.subrange(0, i as int)),
        decreases v.len() - i,
    {
        let ghost p = v@.subrange(0, i + 1);
        proof { reveal(collapse_slashes); }
        assert(p.drop_last() =~= v@.subrange(0, i as int));
        assert(p.last() == v@[i as int]);
        if !(v[i] == '/' && i > 0 && v[i - 1] == '/') {
            w.push(v[i]);
        } else {
            assert(p[p.len() - 2] == v@[i - 1]);
        }
        i = i + 1;
    }
    assert(v@.subrange(0, v@.len() as int) =~= v@);
    w
}

/// A parameter map built from name/value pairs; a later pair wins over an earlier one
/// with the same name.
pub fn extract_params_optimized(params: &[(String, String)]) -> (r: ParamMap)
    ensures
        r@ == collected(params@.map_values(|e: (String, String)| (e.0@, e.1@))),
{
    let mut m = ParamMap::new();
    let mut i: usize = 0;
    while i < params.len()
        invariant
            i <= params@.len(),
            m@ == collected(params@.subrange(0, i as int).map_values(|e: (String, String)| (e.0@, e.1@))),
        decreases params.len() - i,
    {
        let ghost before = params@.subrange(0, i as int).map_values(|e: (String, String)| (e.0@, e.1@));
        let ghost after = params@.subrange(0, i + 1).map_values(|e: (String, String)| (e.0@, e.1@));
        assert(after.drop_last() =~= before);
        m.insert(params[i].0.clone(), params[i].1.clone());
        i = i + 1;
    }
    assert(params@.subrange(0, i as int) =~= params@);
    m
}

} // verus!

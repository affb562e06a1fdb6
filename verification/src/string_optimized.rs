//! Short strings, a pool of shared strings, and path splitting built on them.
use vstd::prelude::*;
use std::sync::Arc;
use crate::text::{lemma_push_to_set, byte_len, str_byte_len, bump, bump_exec, owned, str_eq, segments, split_segments, segment_bounds, substring};
use crate::param_map::{ParamMap, assoc_insert};

verus! {

/// `String::as_mut_str`: the string's text as a mutable `str`; changes made through it are
/// changes of the string.
#[verifier::external_body]
fn string_as_mut_str(s: &mut String) -> (r: &mut str)
    ensures
        r@ == old(s)@,
        final(s)@ == final(r)@,
{
    s.as_mut_str()
}

/// Longest byte length that still counts as a small string.
pub const SMALL_STRING_MAX: usize = 23;

/// An owned string, small when its UTF-8 form takes at most 23 bytes.
#[derive(Debug, Clone)]
pub struct SmallString {
    inner: String,
}

impl View for SmallString {
    type V = Seq<char>;

    closed spec fn view(&self) -> Seq<char> {
        self.inner@
    }
}

impl SmallString {
    /// A small string holding `s`.
    pub fn new(s: &str) -> (r: SmallString)
        ensures
            r@ == s@,
    {
        SmallString { inner: owned(s) }
    }

    /// A small string holding the static text `s`.
    pub fn from_static(s: &'static str) -> (r: SmallString)
        ensures
            r@ == s@,
    {
        SmallString { inner: owned(s) }
    }

    /// The text.
    pub fn as_str(&self) -> (r: &str)
        ensures
            r@ == self@,
    {
        self.inner.as_str()
    }

    /// The text, to be changed in place: whatever the caller leaves in it is the new text.
    pub fn as_mut_str(&mut self) -> (r: &mut str)
        ensures
            r@ == old(self)@,
            final(self)@ == final(r)@,
    {
        string_as_mut_str(&mut self.inner)
    }

    /// Whether the text takes at most 23 bytes.
    pub fn is_small(&self) -> (r: bool)
        ensures
            r == (byte_len(self@) <= SMALL_STRING_MAX),
    {
        str_byte_len(self.inner.as_str()) <= SMALL_STRING_MAX
    }

    /// Appends `s`.
    pub fn push_str(&mut self, s: &str)
        ensures
            final(self)@ == old(self)@ + s@,
    {
        self.inner.append(s);
    }

    /// Removes all text.
    pub fn clear(&mut self)
        ensures
            final(self)@ == Seq::<char>::empty(),
    {
        self.inner = String::new();
    }

    /// Byte length of the text.
    pub fn len(&self) -> (r: usize)
        ensures
            r == byte_len(self@),
    {
        str_byte_len(self.inner.as_str())
    }

    /// Whether the text is empty.
    pub fn is_empty(&self) -> (r: bool)
        ensures
            r == (self@.len() == 0),
    {
        self.inner.as_str().is_empty()
    }

    /// The text as an owned `String`.
    pub fn into_string(self) -> (r: String)
        ensures
            r@ == self@,
    {
        self.inner
    }
}

/// Keys of a list of pool entries.
pub open spec fn entry_keys(e: Seq<(String, Arc<String>)>) -> Seq<Seq<char>> {
    e.map_values(|x: (String, Arc<String>)| x.0@)
}

/// A pool that hands out one shared copy of each string it has seen,
/// counting lookups that found a copy (hits) and that created one (misses).
#[derive(Debug)]
pub struct StringPool {
    entries: Vec<(String, Arc<String>)>,
    hits: usize,
    misses: usize,
}

impl StringPool {
    #[verifier::type_invariant]
    spec fn inv(self) -> bool {
        &&& entry_keys(self.entries@).no_duplicates()
        &&& forall|i: int| #![trigger self.entries@[i]] 0 <= i < self.entries@.len() ==> self.entries@[i].1@ == self.entries@[i].0@
    }

    /// The strings held by the pool.
    pub closed spec fn keys(&self) -> Set<Seq<char>> {
        entry_keys(self.entries@).to_set()
    }

    /// Number of lookups that found a pooled copy.
    pub closed spec fn hit_count(&self) -> usize {
        self.hits
    }

    /// Number of lookups that created a copy.
    pub closed spec fn miss_count(&self) -> usize {
        self.misses
    }

    /// An empty pool.
    pub fn new() -> (r: StringPool)
        ensures
            r.keys() == Set::<Seq<char>>::empty(),
            r.hit_count() == 0,
            r.miss_count() == 0,
    {
        let r = StringPool { entries: Vec::new(), hits: 0, misses: 0 };
        assert(entry_keys(r.entries@) =~= Seq::<Seq<char>>::empty());
        assert(r.keys() =~= Set::<Seq<char>>::empty());
        r
    }

    fn find(&self, s: &str) -> (r: Option<usize>)
        ensures
            match r {
                Some(i) => i < self.entries@.len() && self.entries@[i as int].0@ == s@,
                None => !self.keys().contains(s@),
            },
    {
        let mut i: usize = 0;
        while i < self.entries.len()
            invariant
                i <= self.entries@.len(),
                forall|j: int| 0 <= j < i ==> self.entries@[j].0@ != s@,
            decreases self.entries.len() - i,
        {
            if str_eq(self.entries[i].0.as_str(), s) {
                return Some(i);
            }
            i = i + 1;
        }
        proof {
            if self.keys().contains(s@) {
                let j = choose|j: int| 0 <= j < entry_keys(self.entries@).len() && entry_keys(self.entries@)[j] == s@;
                assert(self.entries@[j].0@ == s@);
            }
        }
        None
    }

    fn add_new(&mut self, s: &str) -> (r: Arc<String>)
        requires
            !old(self).keys().contains(s@),
        ensures
            r@ == s@,
            final(self).keys() == old(self).keys().insert(s@),
            final(self).hit_count() == old(self).hit_count(),
            final(self).miss_count() == old(self).miss_count(),
    {
        proof { use_type_invariant(&*self); }
        let shared = Arc::new(owned(s));
        let ghost old_e = self.entries@;
        let mut entries: Vec<(String, Arc<String>)> = Vec::new();
        std::mem::swap(&mut entries, &mut self.entries);
        entries.push((owned(s), shared.clone()));
        proof {
            assert(entry_keys(entries@) =~= entry_keys(old_e).push(s@));
            assert(!entry_keys(old_e).to_set().contains(s@));
            lemma_push_to_set(entry_keys(old_e), s@);
            assert forall|i: int, j: int| 0 <= i < entry_keys(entries@).len() && 0 <= j < entry_keys(entries@).len() && i != j
                implies entry_keys(entries@)[i] != entry_keys(entries@)[j] by {
                if i < old_e.len() && j < old_e.len() {
                    assert(entry_keys(old_e)[i] != entry_keys(old_e)[j]);
                } else if i < old_e.len() {
                    assert(entry_keys(old_e)[i] == entry_keys(entries@)[i]);
                } else {
                    assert(entry_keys(old_e)[j] == entry_keys(entries@)[j]);
                }
            };
            assert forall|i: int| #![trigger entries@[i]] 0 <= i < entries@.len() implies entries@[i].1@ == entries@[i].0@ by {
                if i < old_e.len() {
                    assert(entries@[i] == old_e[i]);
                }
            };
        }
        self.entries = entries;
        shared
    }

    /// The shared copy of `s`, creating it when the pool does not hold `s` yet.
    pub fn get_or_insert(&mut self, s: &str) -> (r: Arc<String>)
        ensures
            r@ == s@,
            final(self).keys() == old(self).keys().insert(s@),
            old(self).keys().contains(s@) ==> final(self).hit_count() == bump(old(self).hit_count())
                && final(self).miss_count() == old(self).miss_count(),
            !old(self).keys().contains(s@) ==> final(self).miss_count() == bump(old(self).miss_count())
                && final(self).hit_count() == old(self).hit_count(),
    {
        proof { use_type_invariant(&*self); }
        match self.find(s) {
            Some(i) => {
                self.hits = bump_exec(self.hits);
                assert(self.entries@[i as int].1@ == s@);
                proof {
                    assert(entry_keys(self.entries@)[i as int] == s@);
                    assert(self.keys().insert(s@) =~= self.keys());
                }
                self.entries[i].1.clone()
            },
            None => {
                self.misses = bump_exec(self.misses);
                self.add_new(s)
            },
        }
    }

    /// The shared copy of `s`, if the pool holds `s`.
    pub fn get(&self, s: &str) -> (r: Option<Arc<String>>)
        ensures
            match r {
                Some(a) => self.keys().contains(s@) && a@ == s@,
                None => !self.keys().contains(s@),
            },
    {
        proof { use_type_invariant(self); }
        match self.find(s) {
            Some(i) => {
                assert(entry_keys(self.entries@)[i as int] == s@);
                Some(self.entries[i].1.clone())
            },
            None => None,
        }
    }

    /// Adds each of `strings` that the pool does not hold yet; the counters stay.
    pub fn prefill(&mut self, strings: &[&str])
        ensures
            final(self).keys() == old(self).keys() + strings@.map_values(|x: &str| x@).to_set(),
            final(self).hit_count() == old(self).hit_count(),
            final(self).miss_count() == old(self).miss_count(),
    {
        let ghost k0 = self.keys();
        let mut i: usize = 0;
        while i < strings.len()
            invariant
                i <= strings@.len(),
                self.keys() == k0 + strings@.subrange(0, i as int).map_values(|x: &str| x@).to_set(),
                self.hit_count() == old(self).hit_count(),
                self.miss_count() == old(self).miss_count(),
            decreases strings.len() - i,
        {
            let s = strings[i];
            let ghost before = self.keys();
            match self.find(s) {
                None => { self.add_new(s); },
                Some(j) => {
                    proof {
                        use_type_invariant(&*self);
                        assert(entry_keys(self.entries@)[j as int] == s@);
                    }
                },
            }
            proof {
                assert(strings@.subrange(0, i + 1).map_values(|x: &str| x@) =~= strings@.subrange(0, i as int).map_values(|x: &str| x@).push(s@));
                lemma_push_to_set(strings@.subrange(0, i as int).map_values(|x: &str| x@), s@);
                assert(self.keys() =~= before.insert(s@));
                assert(k0 + strings@.subrange(0, i + 1).map_values(|x: &str| x@).to_set() =~= (k0 + strings@.subrange(0, i as int).map_values(|x: &str| x@).to_set()).insert(s@));
            }
            i = i + 1;
        }
        assert(strings@.subrange(0, i as int) =~= strings@);
    }

    /// Number of strings held.
    pub fn len(&self) -> (r: usize)
        ensures
            r == self.keys().len(),
    {
        proof {
            use_type_invariant(self);
            entry_keys(self.entries@).unique_seq_to_set();
        }
        self.entries.len()
    }

    /// Whether the pool holds no string.
    pub fn is_empty(&self) -> (r: bool)
        ensures
            r == (self.keys().len() == 0),
    {
        self.len() == 0
    }

    /// Number of lookups that found a pooled copy.
    pub fn hits(&self) -> (r: usize)
        ensures
            r == self.hit_count(),
    {
        self.hits
    }

    /// Number of lookups that created a copy.
    pub fn misses(&self) -> (r: usize)
        ensures
            r == self.miss_count(),
    {
        self.misses
    }

    /// Removes every string and resets the counters.
    pub fn clear(&mut self)
        ensures
            final(self).keys() == Set::<Seq<char>>::empty(),
            final(self).hit_count() == 0,
            final(self).miss_count() == 0,
    {
        self.entries = Vec::new();
        self.hits = 0;
        self.misses = 0;
        assert(entry_keys(self.entries@) =~= Seq::<Seq<char>>::empty());
        assert(self.keys() =~= Set::<Seq<char>>::empty());
    }
}


/// How many `Arc`s share the value (`Arc::strong_count`). It depends on what else in the
/// program holds the value, so nothing is stated of it.
#[verifier::external_body]
fn arc_strong_count(a: &Arc<String>) -> usize {
    Arc::strong_count(a)
}

/// The first `n` of `keys` whose share count in `counts` is above one, in order.
pub open spec fn shared_keys(keys: Seq<Seq<char>>, counts: Seq<usize>, n: int) -> Seq<Seq<char>>
    decreases n,
{
    if n <= 0 {
        Seq::empty()
    } else {
        shared_keys(keys, counts, n - 1) + if counts[n - 1] > 1 { seq![keys[n - 1]] } else { Seq::empty() }
    }
}

impl StringPool {
    /// The strings held by the pool, in the order they were first pooled.
    pub closed spec fn key_list(&self) -> Seq<Seq<char>> {
        entry_keys(self.entries@)
    }

    /// Drops the strings that nobody outside the pool shares any more; the counters stay.
    /// How many holders share each string depends on the rest of the program; `shrink_with`
    /// decides from those counts.
    pub fn shrink(&mut self)
        ensures
            final(self).keys().subset_of(old(self).keys()),
            final(self).hit_count() == old(self).hit_count(),
            final(self).miss_count() == old(self).miss_count(),
            exists|counts: Seq<usize>| counts.len() == old(self).key_list().len()
                && final(self).key_list() == shared_keys(old(self).key_list(), counts, counts.len() as int),
    {
        let mut counts: Vec<usize> = Vec::new();
        let mut i: usize = 0;
        while i < self.entries.len()
            invariant
                i <= self.entries@.len(),
                counts@.len() == i,
            decreases self.entries@.len() - i,
        {
            counts.push(arc_strong_count(&self.entries[i].1));
            i = i + 1;
        }
        self.shrink_with(&counts);
    }

    /// Keeps, in order, the strings whose share count in `counts` (one per pooled string, the
    /// pool's own copy included) is above one; the counters stay.
    pub fn shrink_with(&mut self, counts: &Vec<usize>)
        requires
            counts@.len() == old(self).key_list().len(),
        ensures
            final(self).key_list() == shared_keys(old(self).key_list(), counts@, counts@.len() as int),
            final(self).keys().subset_of(old(self).keys()),
            final(self).hit_count() == old(self).hit_count(),
            final(self).miss_count() == old(self).miss_count(),
    {
        proof { use_type_invariant(&*self); }
        let ghost old_e = self.entries@;
        let mut entries: Vec<(String, Arc<String>)> = Vec::new();
        std::mem::swap(&mut entries, &mut self.entries);
        let mut kept: Vec<(String, Arc<String>)> = Vec::new();
        let mut i: usize = 0;
        while i < entries.len()
            invariant
                entries@ == old_e,
                entry_keys(old_e).no_duplicates(),
                forall|k: int| #![trigger old_e[k]] 0 <= k < old_e.len() ==> old_e[k].1@ == old_e[k].0@,
                i <= entries@.len(),
                forall|k: int| #![trigger kept@[k]] 0 <= k < kept@.len() ==> kept@[k].1@ == kept@[k].0@,
                entry_keys(kept@).no_duplicates(),
                forall|k: int| #![trigger kept@[k]] 0 <= k < kept@.len() ==> exists|j: int| 0 <= j < i && old_e[j] == kept@[k],
                entry_keys(kept@).to_set().subset_of(entry_keys(old_e).to_set()),
                counts@.len() == old_e.len(),
                entry_keys(kept@) == shared_keys(entry_keys(old_e), counts@, i as int),
            decreases entries.len() - i,
        {
            proof {
                assert(shared_keys(entry_keys(old_e), counts@, i + 1) == shared_keys(entry_keys(old_e), counts@, i as int)
                    + if counts@[i as int] > 1 { seq![entry_keys(old_e)[i as int]] } else { Seq::empty() });
            }
            if counts[i] > 1 {
                let ghost before = kept@;
                let e = (entries[i].0.clone(), entries[i].1.clone());
                kept.push(e);
                proof {
                    assert(entry_keys(kept@) =~= entry_keys(before).push(old_e[i as int].0@));
                    lemma_push_to_set(entry_keys(before), old_e[i as int].0@);
                    assert(entry_keys(old_e)[i as int] == old_e[i as int].0@);
                    assert forall|a: int, b: int| 0 <= a < entry_keys(kept@).len() && 0 <= b < entry_keys(kept@).len() && a != b
                        implies entry_keys(kept@)[a] != entry_keys(kept@)[b] by {
                        if a < before.len() && b < before.len() {
                            assert(entry_keys(before)[a] != entry_keys(before)[b]);
                        } else if a < before.len() {
                            let j = choose|j: int| 0 <= j < i && old_e[j] == before[a];
                            assert(entry_keys(old_e)[j] != entry_keys(old_e)[i as int]);
                            assert(kept@[a] == before[a]);
                        } else {
                            let j = choose|j: int| 0 <= j < i && old_e[j] == before[b];
                            assert(entry_keys(old_e)[j] != entry_keys(old_e)[i as int]);
                            assert(kept@[b] == before[b]);
                        }
                    };
                    assert forall|k: int| #![trigger kept@[k]] 0 <= k < kept@.len() implies kept@[k].1@ == kept@[k].0@ by {
                        if k < before.len() {
                            assert(kept@[k] == before[k]);
                        }
                    };
                    assert forall|k: int| #![trigger kept@[k]] 0 <= k < kept@.len() implies exists|j: int| 0 <= j < i + 1 && old_e[j] == kept@[k] by {
                        if k < before.len() {
                            assert(kept@[k] == before[k]);
                            let j = choose|j: int| 0 <= j < i && old_e[j] == before[k];
                            assert(0 <= j < i + 1 && old_e[j] == kept@[k]);
                        } else {
                            assert(old_e[i as int] == kept@[k]);
                        }
                    };
                }
            }
            i = i + 1;
        }
        self.entries = kept;
    }
}

/// The standard vocabulary a path pool starts with.
pub open spec fn path_pool_words() -> Seq<Seq<char>> {
    seq![
        "GET"@, "POST"@, "PUT"@, "DELETE"@, "PATCH"@, "HEAD"@, "OPTIONS"@,
        "api"@, "v1"@, "v2"@, "users"@, "posts"@, "comments"@, "id"@, "name"@,
        "email"@, "password"@, "token"@, "auth"@, "login"@, "logout"@, "register"@,
        "admin"@, "dashboard"@, "settings"@, "profile"@,
        "user_id"@, "post_id"@, "comment_id"@, "id"@, "page"@, "limit"@, "offset"@,
        "sort"@, "order"@, "query"@, "search"@, "filter"@,
        "application/json"@, "text/plain"@, "text/html"@, "application/xml"@,
        "application/octet-stream"@, "multipart/form-data"@,
        "SimpleRoute"@, "TimedRoute"@, "AuthRoute"@, "CustomRoute"@,
        "utf-8"@, "gzip"@, "deflate"@, "br"@, "identity"@
    ]
}

/// A string pool for path pieces, filled at creation with common HTTP methods,
/// path segments, parameter names, content types and route type names.
#[derive(Debug)]
pub struct PathStringPool {
    inner: StringPool,
}

impl PathStringPool {
    /// The strings held by the pool.
    pub closed spec fn keys(&self) -> Set<Seq<char>> {
        self.inner.keys()
    }

    /// Number of lookups that found a pooled copy.
    pub closed spec fn hit_count(&self) -> usize {
        self.inner.hit_count()
    }

    /// Number of lookups that created a copy.
    pub closed spec fn miss_count(&self) -> usize {
        self.inner.miss_count()
    }

    /// A pool holding the standard vocabulary, with zero counters.
    pub fn new() -> (r: PathStringPool)
        ensures
            r.keys() == path_pool_words().to_set(),
            r.hit_count() == 0,
            r.miss_count() == 0,
    {
        let mut inner = StringPool::new();
        let words: [&str; 53] = [
            "GET", "POST", "PUT", "DELETE", "PATCH", "HEAD", "OPTIONS",
            "api", "v1", "v2", "users", "posts", "comments", "id", "name",
            "email", "password", "token", "auth", "login", "logout", "register",
            "admin", "dashboard", "settings", "profile",
            "user_id", "post_id", "comment_id", "id", "page", "limit", "offset",
            "sort", "order", "query", "search", "filter",
            "application/json", "text/plain", "text/html", "application/xml",
            "application/octet-stream", "multipart/form-data",
            "SimpleRoute", "TimedRoute", "AuthRoute", "CustomRoute",
            "utf-8", "gzip", "deflate", "br", "identity",
        ];
        inner.prefill(words.as_slice());
        assert(words@.map_values(|x: &str| x@) =~= path_pool_words());
        assert(inner.keys() =~= path_pool_words().to_set());
        PathStringPool { inner }
    }

    /// The shared copy of `s`, creating it when needed.
    pub fn get_or_insert(&mut self, s: &str) -> (r: Arc<String>)
        ensures
            r@ == s@,
            final(self).keys() == old(self).keys().insert(s@),
            old(self).keys().contains(s@) ==> final(self).hit_count() == bump(old(self).hit_count())
                && final(self).miss_count() == old(self).miss_count(),
            !old(self).keys().contains(s@) ==> final(self).miss_count() == bump(old(self).miss_count())
                && final(self).hit_count() == old(self).hit_count(),
    {
        self.inner.get_or_insert(s)
    }

    /// The shared copy of `s`, if the pool holds it.
    pub fn get(&self, s: &str) -> (r: Option<Arc<String>>)
        ensures
            match r {
                Some(a) => self.keys().contains(s@) && a@ == s@,
                None => !self.keys().contains(s@),
            },
    {
        self.inner.get(s)
    }

    /// Number of lookups that found a pooled copy.
    pub fn hits(&self) -> (r: usize)
        ensures
            r == self.hit_count(),
    {
        self.inner.hits()
    }

    /// Number of lookups that created a copy.
    pub fn misses(&self) -> (r: usize)
        ensures
            r == self.miss_count(),
    {
        self.inner.misses()
    }

    /// Removes every string and resets the counters.
    pub fn clear(&mut self)
        ensures
            final(self).keys() == Set::<Seq<char>>::empty(),
            final(self).hit_count() == 0,
            final(self).miss_count() == 0,
    {
        self.inner.clear();
    }
}


/// A string held the cheapest way available: inline, shared through a pool, or borrowed.
pub enum SmartString {
    /// An owned short string.
    Small(SmallString),
    /// A copy shared through a string pool.
    Pooled(Arc<String>),
    /// A static string.
    Borrowed(&'static str),
}

impl View for SmartString {
    type V = Seq<char>;

    open spec fn view(&self) -> Seq<char> {
        match self {
            SmartString::Small(s) => s@,
            SmartString::Pooled(s) => s@,
            SmartString::Borrowed(s) => s@,
        }
    }
}

impl SmartString {
    /// `s` as a smart string using `pool`: a string of at most 23 bytes is pooled only when
    /// the pool already holds it (the pool is left as it was); a longer one is always pooled,
    /// adding it to the pool when needed.
    pub fn from_string_in(s: &str, pool: &mut PathStringPool) -> (r: SmartString)
        ensures
            r@ == s@,
            byte_len(s@) <= SMALL_STRING_MAX ==> {
                &&& (r is Pooled <==> old(pool).keys().contains(s@))
                &&& (r is Small <==> !old(pool).keys().contains(s@))
                &&& final(pool).keys() == old(pool).keys()
                &&& final(pool).hit_count() == old(pool).hit_count()
                &&& final(pool).miss_count() == old(pool).miss_count()
            },
            byte_len(s@) > SMALL_STRING_MAX ==> {
                &&& r is Pooled
                &&& final(pool).keys() == old(pool).keys().insert(s@)
                &&& old(pool).keys().contains(s@) ==> final(pool).hit_count() == bump(old(pool).hit_count())
                    && final(pool).miss_count() == old(pool).miss_count()
                &&& !old(pool).keys().contains(s@) ==> final(pool).miss_count() == bump(old(pool).miss_count())
                    && final(pool).hit_count() == old(pool).hit_count()
            },
    {
        if str_byte_len(s) <= SMALL_STRING_MAX {
            match pool.get(s) {
                Some(p) => SmartString::Pooled(p),
                None => SmartString::Small(SmallString::new(s)),
            }
        } else {
            SmartString::Pooled(pool.get_or_insert(s))
        }
    }

    /// `s` as a smart string, checked against the standard path vocabulary: a string of at
    /// most 23 bytes is pooled when it is one of those words, a longer one always.
    pub fn from_string(s: &str) -> (r: SmartString)
        ensures
            r@ == s@,
            byte_len(s@) <= SMALL_STRING_MAX ==> (r is Pooled <==> path_pool_words().to_set().contains(s@))
                && (r is Small <==> !path_pool_words().to_set().contains(s@)),
            byte_len(s@) > SMALL_STRING_MAX ==> r is Pooled,
    {
        let mut pool = PathStringPool::new();
        Self::from_string_in(s, &mut pool)
    }

    /// A borrowed smart string.
    pub fn from_static(s: &'static str) -> (r: SmartString)
        ensures
            r == SmartString::Borrowed(s),
    {
        SmartString::Borrowed(s)
    }

    /// The text.
    pub fn as_str(&self) -> (r: &str)
        ensures
            r@ == self@,
    {
        match self {
            SmartString::Small(s) => s.as_str(),
            SmartString::Pooled(s) => s.as_str(),
            SmartString::Borrowed(s) => s,
        }
    }

    /// Byte length of the text.
    pub fn len(&self) -> (r: usize)
        ensures
            r == byte_len(self@),
    {
        str_byte_len(self.as_str())
    }

    /// Whether the text is empty.
    pub fn is_empty(&self) -> (r: bool)
        ensures
            r == (self@.len() == 0),
    {
        self.as_str().is_empty()
    }
}

/// The segments of `path`, each a shared copy from `pool`, adding the new ones to the pool.
pub fn split_path_pooled_in(path: &str, pool: &mut PathStringPool) -> (r: Vec<Arc<String>>)
    ensures
        r@.len() == segments(path@).len(),
        forall|k: int| #![trigger r@[k]] 0 <= k < r@.len() ==> r@[k]@ == segments(path@)[k],
        final(pool).keys() == old(pool).keys() + segments(path@).to_set(),
{
    let parts = split_segments(path);
    let mut r: Vec<Arc<String>> = Vec::new();
    let mut k: usize = 0;
    let ghost k0 = pool.keys();
    while k < parts.len()
        invariant
            parts@.len() == segments(path@).len(),
            forall|j: int| 0 <= j < parts@.len() ==> #[trigger] parts@[j]@ == segments(path@)[j],
            k <= parts@.len(),
            r@.len() == k,
            forall|j: int| #![trigger r@[j]] 0 <= j < k ==> r@[j]@ == segments(path@)[j],
            pool.keys() == k0 + segments(path@).subrange(0, k as int).to_set(),
        decreases parts.len() - k,
    {
        let a = pool.get_or_insert(parts[k].as_str());
        r.push(a);
        proof {
            assert(segments(path@).subrange(0, k + 1) =~= segments(path@).subrange(0, k as int).push(parts@[k as int]@));
            lemma_push_to_set(segments(path@).subrange(0, k as int), parts@[k as int]@);
            assert(pool.keys() =~= k0 + segments(path@).subrange(0, k + 1).to_set());
        }
        k = k + 1;
    }
    assert(segments(path@).subrange(0, k as int) =~= segments(path@));
    r
}

/// The segments of `path` as shared copies, taken from a pool that starts with the
/// standard path vocabulary.
pub fn split_path_pooled(path: &str) -> (r: Vec<Arc<String>>)
    ensures
        r@.len() == segments(path@).len(),
        forall|k: int| #![trigger r@[k]] 0 <= k < r@.len() ==> r@[k]@ == segments(path@)[k],
{
    let mut pool = PathStringPool::new();
    split_path_pooled_in(path, &mut pool)
}

/// The segments of `path` as small strings.
pub fn split_path_small(path: &str) -> (r: Vec<SmallString>)
    ensures
        r@.len() == segments(path@).len(),
        forall|k: int| #![trigger r@[k]] 0 <= k < r@.len() ==> r@[k]@ == segments(path@)[k],
{
    let b = segment_bounds(path);
    let mut r: Vec<SmallString> = Vec::new();
    let mut k: usize = 0;
    while k < b.len()
        invariant
            b@.len() == segments(path@).len(),
            forall|j: int| #![trigger b@[j]] 0 <= j < b@.len() ==> b@[j].0 <= b@[j].1 && b@[j].1 <= path@.len()
                && path@.subrange(b@[j].0 as int, b@[j].1 as int) == segments(path@)[j],
            k <= b.len(),
            r@.len() == k,
            forall|j: int| #![trigger r@[j]] 0 <= j < k ==> r@[j]@ == segments(path@)[j],
        decreases b.len() - k,
    {
        let (x, y) = b[k];
        assert(b@[k as int].0 <= b@[k as int].1);
        r.push(SmallString { inner: substring(path, x, y) });
        k = k + 1;
    }
    r
}

/// The segments of `path` as smart strings, each chosen with `pool` as `from_string_in` does.
pub fn split_path_smart_in(path: &str, pool: &mut PathStringPool) -> (r: Vec<SmartString>)
    ensures
        r@.len() == segments(path@).len(),
        forall|k: int| #![trigger r@[k]] 0 <= k < r@.len() ==> r@[k]@ == segments(path@)[k],
{
    let parts = split_segments(path);
    let mut r: Vec<SmartString> = Vec::new();
    let mut k: usize = 0;
    while k < parts.len()
        invariant
            parts@.len() == segments(path@).len(),
            forall|j: int| 0 <= j < parts@.len() ==> #[trigger] parts@[j]@ == segments(path@)[j],
            k <= parts@.len(),
            r@.len() == k,
            forall|j: int| #![trigger r@[j]] 0 <= j < k ==> r@[j]@ == segments(path@)[j],
        decreases parts.len() - k,
    {
        let s = SmartString::from_string_in(parts[k].as_str(), pool);
        r.push(s);
        k = k + 1;
    }
    r
}

/// The segments of `path` as smart strings, chosen against the standard path vocabulary.
pub fn split_path_smart(path: &str) -> (r: Vec<SmartString>)
    ensures
        r@.len() == segments(path@).len(),
        forall|k: int| #![trigger r@[k]] 0 <= k < r@.len() ==> r@[k]@ == segments(path@)[k],
{
    let mut pool = PathStringPool::new();
    split_path_smart_in(path, &mut pool)
}

/// The path made of `segs`: each segment is preceded by `/`, except a first segment that
/// already starts with `/`.
pub open spec fn joined_path(segs: Seq<Seq<char>>) -> Seq<char>
    decreases segs.len(),
{
    if segs.len() == 0 {
        Seq::<char>::empty()
    } else {
        let seg = segs.last();
        let lead = segs.len() > 1 || !(seg.len() > 0 && seg[0] == '/');
        joined_path(segs.drop_last()) + (if lead { seq!['/'] } else { Seq::<char>::empty() }) + seg
    }
}

/// Joins path segments into one path.
pub fn join_paths_optimized(segments: &[&str]) -> (r: String)
    ensures
        r@ == joined_path(segments@.map_values(|x: &str| x@)),
{
    let mut result = String::new();
    let mut i: usize = 0;
    while i < segments.len()
        invariant
            i <= segments@.len(),
            result@ == joined_path(segments@.subrange(0, i as int).map_values(|x: &str| x@)),
        decreases segments.len() - i,
    {
        let seg = segments[i];
        let ghost before = segments@.subrange(0, i as int).map_values(|x: &str| x@);
        let ghost after = segments@.subrange(0, i + 1).map_values(|x: &str| x@);
        assert(after.drop_last() =~= before);
        assert(after.last() == seg@);
        if i > 0 || !crate::text::starts_with_char(seg, '/') {
            crate::text::push_char(&mut result, '/');
        }
        result.append(seg);
        i = i + 1;
    }
    assert(segments@.subrange(0, i as int) =~= segments@);
    result
}

/// The entries after setting each pair of `p` in order.
pub open spec fn collected(p: Seq<(Seq<char>, Seq<char>)>) -> Seq<(Seq<char>, Seq<char>)>
    decreases p.len(),
{
    if p.len() == 0 {
        Seq::<(Seq<char>, Seq<char>)>::empty()
    } else {
        assoc_insert(collected(p.drop_last()), p.last().0, p.last().1)
    }
}

/// A parameter map built from name/value pairs; a later pair wins over an earlier one with
/// the same name.
pub fn extract_params_pooled(params: &[(Arc<String>, Arc<String>)]) -> (r: ParamMap)
    ensures
        r@ == collected(params@.map_values(|e: (Arc<String>, Arc<String>)| (e.0@, e.1@))),
{
    let mut m = ParamMap::new();
    let mut i: usize = 0;
    while i < params.len()
        invariant
            i <= params@.len(),
            m@ == collected(params@.subrange(0, i as int).map_values(|e: (Arc<String>, Arc<String>)| (e.0@, e.1@))),
        decreases params.len() - i,
    {
        let ghost before = params@.subrange(0, i as int).map_values(|e: (Arc<String>, Arc<String>)| (e.0@, e.1@));
        let ghost after = params@.subrange(0, i + 1).map_values(|e: (Arc<String>, Arc<String>)| (e.0@, e.1@));
        assert(after.drop_last() =~= before);
        let k = owned(params[i].0.as_str());
        let v = owned(params[i].1.as_str());
        m.insert(k, v);
        i = i + 1;
    }
    assert(params@.subrange(0, i as int) =~= params@);
    m
}

/// Counts of how strings were represented.
#[derive(Debug)]
pub struct StringOptimizationStats {
    /// All recorded representations.
    pub total_operations: usize,
    /// Small strings recorded.
    pub small_string_count: usize,
    /// Pooled strings recorded.
    pub pooled_string_count: usize,
    /// Borrowed strings recorded.
    pub borrowed_string_count: usize,
}

impl StringOptimizationStats {
    /// All counts zero.
    pub fn new() -> (r: StringOptimizationStats)
        ensures
            r.total_operations == 0 && r.small_string_count == 0 && r.pooled_string_count == 0
                && r.borrowed_string_count == 0,
    {
        StringOptimizationStats { total_operations: 0, small_string_count: 0, pooled_string_count: 0, borrowed_string_count: 0 }
    }

    /// Records a small string.
    pub fn record_small_string(&mut self)
        ensures
            final(self).small_string_count == bump(old(self).small_string_count),
            final(self).total_operations == bump(old(self).total_operations),
            final(self).pooled_string_count == old(self).pooled_string_count,
            final(self).borrowed_string_count == old(self).borrowed_string_count,
    {
        self.small_string_count = bump_exec(self.small_string_count);
        self.total_operations = bump_exec(self.total_operations);
    }

    /// Records a pooled string.
    pub fn record_pooled_string(&mut self)
        ensures
            final(self).pooled_string_count == bump(old(self).pooled_string_count),
            final(self).total_operations == bump(old(self).total_operations),
            final(self).small_string_count == old(self).small_string_count,
            final(self).borrowed_string_count == old(self).borrowed_string_count,
    {
        self.pooled_string_count = bump_exec(self.pooled_string_count);
        self.total_operations = bump_exec(self.total_operations);
    }

    /// Records a borrowed string.
    pub fn record_borrowed_string(&mut self)
        ensures
            final(self).borrowed_string_count == bump(old(self).borrowed_string_count),
            final(self).total_operations == bump(old(self).total_operations),
            final(self).small_string_count == old(self).small_string_count,
            final(self).pooled_string_count == old(self).pooled_string_count,
    {
        self.borrowed_string_count = bump_exec(self.borrowed_string_count);
        self.total_operations = bump_exec(self.total_operations);
    }
}

impl Default for StringOptimizationStats {
    fn default() -> (r: StringOptimizationStats)
        ensures
            r.total_operations == 0 && r.small_string_count == 0 && r.pooled_string_count == 0
                && r.borrowed_string_count == 0,
    {
        Self::new()
    }
}

} // verus!

//! A small string-keyed map that keeps each key once, used for the
//! parameters captured by route matching.
use vstd::prelude::*;
use crate::text::str_eq;

verus! {

/// True when no two entries of `p` have the same key.
pub open spec fn keys_distinct(p: Seq<(Seq<char>, Seq<char>)>) -> bool {
    forall|i: int, j: int| 0 <= i < p.len() && 0 <= j < p.len() && i != j ==> p[i].0 != p[j].0
}

/// The position of key `k` in `p`, if any.
pub open spec fn has_key(p: Seq<(Seq<char>, Seq<char>)>, k: Seq<char>) -> bool {
    exists|i: int| 0 <= i < p.len() && p[i].0 == k
}

/// The value stored under `k` (meaningful when `has_key(p, k)`).
pub open spec fn value_of(p: Seq<(Seq<char>, Seq<char>)>, k: Seq<char>) -> Seq<char> {
    p[choose|i: int| 0 <= i < p.len() && p[i].0 == k].1
}

/// The entries after setting `k` to `v`: an existing entry for `k` is
/// replaced in place, otherwise the pair goes to the end.
pub open spec fn assoc_insert(p: Seq<(Seq<char>, Seq<char>)>, k: Seq<char>, v: Seq<char>) -> Seq<(Seq<char>, Seq<char>)> {
    if has_key(p, k) {
        p.update(choose|i: int| 0 <= i < p.len() && p[i].0 == k, (k, v))
    } else {
        p.push((k, v))
    }
}

/// String-keyed map of route parameters; each key occurs once.
#[derive(Debug)]
pub struct ParamMap {
    entries: Vec<(String, String)>,
}

impl View for ParamMap {
    type V = Seq<(Seq<char>, Seq<char>)>;

    closed spec fn view(&self) -> Seq<(Seq<char>, Seq<char>)> {
        self.entries@.map_values(|e: (String, String)| (e.0@, e.1@))
    }
}

impl ParamMap {
    #[verifier::type_invariant]
    spec fn inv(self) -> bool {
        keys_distinct(self@)
    }

    /// An empty map.
    pub fn new() -> (m: ParamMap)
        ensures
            m@ == Seq::<(Seq<char>, Seq<char>)>::empty(),
    {
        let m = ParamMap { entries: Vec::new() };
        assert(m@ =~= Seq::<(Seq<char>, Seq<char>)>::empty());
        m
    }

    fn find(&self, key: &str) -> (r: Option<usize>)
        ensures
            match r {
                Some(i) => i < self@.len() && self@[i as int].0 == key@,
                None => !has_key(self@, key@),
            },
    {
        let mut i: usize = 0;
        while i < self.entries.len()
            invariant
                i <= self.entries@.len(),
                self@.len() == self.entries@.len(),
                self@ == self.entries@.map_values(|e: (String, String)| (e.0@, e.1@)),
                forall|j: int| 0 <= j < i ==> self@[j].0 != key@,
            decreases self.entries.len() - i,
        {
            if str_eq(self.entries[i].0.as_str(), key) {
                return Some(i);
            }
            i = i + 1;
        }
        None
    }

    /// Sets `key` to `value`, replacing an existing value for the same key.
    pub fn insert(&mut self, key: String, value: String)
        ensures
            final(self)@ == assoc_insert(old(self)@, key@, value@),
    {
        proof { use_type_invariant(&*self); }
        let ghost old_v = self@;
        match self.find(key.as_str()) {
            Some(i) => {
                let ghost k = choose|j: int| 0 <= j < old_v.len() && old_v[j].0 == key@;
                assert(k == i) by {
                    if k != i {
                        assert(old_v[k].0 == old_v[i as int].0);
                    }
                };
                let mut entries: Vec<(String, String)> = Vec::new();
                std::mem::swap(&mut entries, &mut self.entries);
                entries.set(i, (key, value));
                assert(entries@.map_values(|e: (String, String)| (e.0@, e.1@)) =~= old_v.update(i as int, (key@, value@)));
                self.entries = entries;
                assert(self@ =~= old_v.update(i as int, (key@, value@)));
            },
            None => {
                let mut entries: Vec<(String, String)> = Vec::new();
                std::mem::swap(&mut entries, &mut self.entries);
                entries.push((key, value));
                assert(entries@.map_values(|e: (String, String)| (e.0@, e.1@)) =~= old_v.push((key@, value@)));
                assert forall|a: int, b: int| 0 <= a < old_v.len() + 1 && 0 <= b < old_v.len() + 1 && a != b
                    implies old_v.push((key@, value@))[a].0 != old_v.push((key@, value@))[b].0 by {
                    if a < old_v.len() && b < old_v.len() {
                    } else if a < old_v.len() {
                        assert(!(0 <= a < old_v.len() && old_v[a].0 == key@));
                    } else {
                        assert(!(0 <= b < old_v.len() && old_v[b].0 == key@));
                    }
                };
                self.entries = entries;
                assert(self@ =~= old_v.push((key@, value@)));
            },
        }
    }

    /// The value stored under `key`.
    pub fn get(&self, key: &str) -> (r: Option<&String>)
        ensures
            match r {
                Some(v) => has_key(self@, key@) && v@ == value_of(self@, key@),
                None => !has_key(self@, key@),
            },
    {
        proof { use_type_invariant(self); }
        match self.find(key) {
            Some(i) => {
                let ghost k = choose|j: int| 0 <= j < self@.len() && self@[j].0 == key@;
                assert(k == i) by {
                    if k != i {
                        assert(self@[k].0 == self@[i as int].0);
                    }
                };
                Some(&self.entries[i].1)
            },
            None => None,
        }
    }

    /// Whether `key` has a value.
    pub fn contains_key(&self, key: &str) -> (r: bool)
        ensures
            r == has_key(self@, key@),
    {
        self.find(key).is_some()
    }

    /// Number of keys.
    pub fn len(&self) -> (r: usize)
        ensures
            r == self@.len(),
    {
        self.entries.len()
    }

    /// Whether there are no keys.
    pub fn is_empty(&self) -> (r: bool)
        ensures
            r == (self@.len() == 0),
    {
        self.entries.len() == 0
    }
}

} // verus!

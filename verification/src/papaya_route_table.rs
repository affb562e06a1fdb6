//! A route table keyed by exact path: a `papaya` concurrent hash map finds the slot of each
//! path, and the routes live in those slots.
use vstd::prelude::*;
use crate::text::strings_view;

verus! {

/// `papaya::HashMap`, declared for use in signatures and fields.
#[verifier::external_type_specification]
#[verifier::external_body]
#[verifier::reject_recursive_types(K)]
#[verifier::reject_recursive_types(V)]
#[verifier::reject_recursive_types(S)]
pub struct ExPapayaHashMap<K, V, S>(papaya::HashMap<K, V, S>);

/// The entries of a papaya map from paths to slot numbers.
pub uninterp spec fn papaya_entries(m: papaya::HashMap<String, usize>) -> Map<Seq<char>, usize>;

/// `papaya::HashMap::builder().collector(seize::Collector::new()).build()`: a map with no
/// entries.
#[verifier::external_body]
fn papaya_new() -> (r: papaya::HashMap<String, usize>)
    ensures
        papaya_entries(r).dom() == Set::<Seq<char>>::empty(),
{
    papaya::HashMap::builder().collector(seize::Collector::new()).build()
}

/// `HashMap::get` (through `pin`): the slot stored under `key`, copied out.
#[verifier::external_body]
fn papaya_get(m: &papaya::HashMap<String, usize>, key: &str) -> (r: Option<usize>)
    ensures
        r == papaya_entries(*m).get(key@),
{
    m.pin().get(key).copied()
}

/// `HashMap::insert` (through `pin`): stores `slot` under `key` and gives the slot stored
/// there before, copied out. The map is only ever changed through this `&mut`.
#[verifier::external_body]
fn papaya_insert(m: &mut papaya::HashMap<String, usize>, key: String, slot: usize) -> (r: Option<usize>)
    ensures
        papaya_entries(*final(m)) == papaya_entries(*old(m)).insert(key@, slot),
        r == papaya_entries(*old(m)).get(key@),
{
    m.pin().insert(key, slot).copied()
}

/// `HashMap::remove` (through `pin`): takes the entry for `key` out and gives its slot.
#[verifier::external_body]
fn papaya_remove(m: &mut papaya::HashMap<String, usize>, key: &str) -> (r: Option<usize>)
    ensures
        papaya_entries(*final(m)) == papaya_entries(*old(m)).remove(key@),
        r == papaya_entries(*old(m)).get(key@),
{
    m.pin().remove(key).copied()
}

/// `HashMap::len`: the number of entries (exact here, as nothing else reaches the map).
#[verifier::external_body]
fn papaya_len(m: &papaya::HashMap<String, usize>) -> (r: usize)
    ensures
        r == papaya_entries(*m).dom().len(),
{
    m.len()
}

/// `HashMap::clear` (through `pin`): removes every entry.
#[verifier::external_body]
fn papaya_clear(map: &mut papaya::HashMap<String, usize>)
    ensures
        papaya_entries(*final(map)).dom() == Set::<Seq<char>>::empty(),
{
    map.pin().clear();
}

/// `HashMap::keys` (through `pin`), cloned: every key once, in the map's own order, which
/// depends on the hashing and is left unsaid.
#[verifier::external_body]
fn papaya_keys(m: &papaya::HashMap<String, usize>) -> (r: Vec<String>)
    ensures
        strings_view(r@).to_set() == papaya_entries(*m).dom(),
        r@.len() == papaya_entries(*m).dom().len(),
{
    m.pin().keys().cloned().collect()
}

/// The routes stored after storing each of `routes[..n]` in turn into `m`.
pub open spec fn stored_all<R>(m: Map<Seq<char>, R>, routes: Seq<(String, R)>, n: int) -> Map<Seq<char>, R>
    decreases n,
{
    if n <= 0 {
        m
    } else {
        stored_all(m, routes, n - 1).insert(routes[n - 1].0@, routes[n - 1].1)
    }
}

/// A route table keyed by exact path. The papaya map gives the slot of each path; each
/// slot holds the route of one path.
pub struct PapayaRouteTable<R> {
    routes: papaya::HashMap<String, usize>,
    slots: Vec<Option<R>>,
}

impl<R> PapayaRouteTable<R> {
    /// The table's invariant: finitely many paths, each with its own slot, which holds a
    /// route.
    pub closed spec fn wf(&self) -> bool {
        let e = papaya_entries(self.routes);
        &&& e.dom().finite()
        &&& forall|k: Seq<char>| #[trigger] e.dom().contains(k) ==> e[k] < self.slots@.len()
            && self.slots@[e[k] as int] is Some
        &&& forall|k1: Seq<char>, k2: Seq<char>| #[trigger] e.dom().contains(k1) && #[trigger] e.dom().contains(k2)
            && k1 != k2 ==> e[k1] != e[k2]
    }

    /// The routes by path.
    pub closed spec fn view(&self) -> Map<Seq<char>, R> {
        let e = papaya_entries(self.routes);
        Map::new(|k: Seq<char>| e.dom().contains(k), |k: Seq<char>| self.slots@[e[k] as int]->0)
    }

    /// An empty table.
    pub fn new() -> (t: Self)
        ensures
            t.wf(),
            t.view() == Map::<Seq<char>, R>::empty(),
    {
        let t = PapayaRouteTable { routes: papaya_new(), slots: Vec::new() };
        assert(t.view() =~= Map::<Seq<char>, R>::empty());
        t
    }

    /// Stores `route` for `path`, replacing the route stored for it before.
    pub fn insert(&mut self, path: String, route: R)
        requires
            old(self).wf(),
        ensures
            final(self).wf(),
            final(self).view() == old(self).view().insert(path@, route),
    {
        let ghost e0 = papaya_entries(self.routes);
        let ghost v0 = self.view();
        match papaya_get(&self.routes, path.as_str()) {
            Some(slot) => {
                assert(e0.dom().contains(path@));
                self.slots.set(slot, Some(route));
                proof {
                    let e = papaya_entries(self.routes);
                    assert forall|k: Seq<char>| #[trigger] e.dom().contains(k) implies e[k] < self.slots@.len()
                        && self.slots@[e[k] as int] is Some by {
                        if k != path@ {
                            assert(e[k] != e[path@]);
                        }
                    }
                    assert(self.view() =~= v0.insert(path@, route)) by {
                        assert forall|k: Seq<char>| #[trigger] e.dom().contains(k) && k != path@
                            implies self.slots@[e[k] as int] == old(self).slots@[e[k] as int] by {
                            assert(e[k] != e[path@]);
                        }
                    }
                }
            },
            None => {
                let slot = self.slots.len();
                self.slots.push(Some(route));
                let ghost key = path@;
                papaya_insert(&mut self.routes, path, slot);
                proof {
                    let e = papaya_entries(self.routes);
                    assert(e == e0.insert(key, slot));
                    assert forall|k: Seq<char>| #[trigger] e.dom().contains(k) implies e[k] < self.slots@.len()
                        && self.slots@[e[k] as int] is Some by {
                        if k != key {
                            assert(e0.dom().contains(k));
                            assert(self.slots@[e[k] as int] == old(self).slots@[e[k] as int]);
                        }
                    }
                    assert forall|k1: Seq<char>, k2: Seq<char>| #[trigger] e.dom().contains(k1) && #[trigger] e.dom().contains(k2)
                        && k1 != k2 implies e[k1] != e[k2] by {
                        if k1 != key && k2 != key {
                            assert(e0.dom().contains(k1) && e0.dom().contains(k2));
                        } else if k1 == key {
                            assert(e0.dom().contains(k2));
                        } else {
                            assert(e0.dom().contains(k1));
                        }
                    }
                    assert(self.view() =~= v0.insert(key, route)) by {
                        assert forall|k: Seq<char>| #[trigger] e.dom().contains(k) && k != key
                            implies self.slots@[e[k] as int] == old(self).slots@[e[k] as int] by {
                            assert(e0.dom().contains(k));
                        }
                    }
                }
            },
        }
    }

    /// Whether a route is stored for `path`.
    pub fn contains(&self, path: &str) -> (r: bool)
        ensures
            r == self.view().dom().contains(path@),
    {
        papaya_get(&self.routes, path).is_some()
    }

    /// The number of paths with a route.
    pub fn len(&self) -> (r: usize)
        requires
            self.wf(),
        ensures
            r == self.view().dom().len(),
    {
        let n = papaya_len(&self.routes);
        assert(self.view().dom() =~= papaya_entries(self.routes).dom());
        n
    }

    /// Whether no route is stored.
    pub fn is_empty(&self) -> (r: bool)
        requires
            self.wf(),
        ensures
            r == (self.view().dom().len() == 0),
    {
        self.len() == 0
    }

    /// Takes the route stored for `path` out of the table.
    pub fn remove(&mut self, path: &str) -> (r: Option<R>)
        requires
            old(self).wf(),
        ensures
            final(self).wf(),
            r == old(self).view().get(path@),
            final(self).view() == old(self).view().remove(path@),
    {
        let ghost e0 = papaya_entries(self.routes);
        let ghost v0 = self.view();
        match papaya_remove(&mut self.routes, path) {
            Some(slot) => {
                assert(e0.dom().contains(path@));
                let mut taken: Option<R> = None;
                let ghost before = self.slots@;
                std::mem::swap(&mut taken, &mut self.slots[slot]);
                proof {
                    assert(self.slots@ == before.update(slot as int, None::<R>));
                    let e = papaya_entries(self.routes);
                    assert(e == e0.remove(path@));
                    assert forall|k: Seq<char>| #[trigger] e.dom().contains(k) implies e[k] < self.slots@.len()
                        && self.slots@[e[k] as int] is Some by {
                        assert(e0.dom().contains(k) && k != path@);
                        assert(e0[k] != e0[path@]);
                    }
                    assert forall|k1: Seq<char>, k2: Seq<char>| #[trigger] e.dom().contains(k1) && #[trigger] e.dom().contains(k2)
                        && k1 != k2 implies e[k1] != e[k2] by {
                        assert(e0.dom().contains(k1) && e0.dom().contains(k2));
                    }
                    assert(self.view() =~= v0.remove(path@)) by {
                        assert forall|k: Seq<char>| #[trigger] e.dom().contains(k)
                            implies self.slots@[e[k] as int] == before[e[k] as int] by {
                            assert(e0.dom().contains(k) && k != path@);
                            assert(e0[k] != e0[path@]);
                        }
                    }
                }
                taken
            },
            None => {
                proof {
                    assert(papaya_entries(self.routes) =~= e0);
                    assert(self.view() =~= v0.remove(path@));
                }
                None
            },
        }
    }

    /// Removes every route.
    pub fn clear(&mut self)
        ensures
            final(self).wf(),
            final(self).view() == Map::<Seq<char>, R>::empty(),
    {
        papaya_clear(&mut self.routes);
        self.slots = Vec::new();
        assert(self.view() =~= Map::<Seq<char>, R>::empty());
    }

    /// Stores each of `routes` in turn, as `insert` does.
    pub fn insert_batch(&mut self, routes: Vec<(String, R)>)
        requires
            old(self).wf(),
        ensures
            final(self).wf(),
            final(self).view() == stored_all(old(self).view(), routes@, routes@.len() as int),
    {
        let ghost all = routes@;
        let ghost v0 = self.view();
        let mut rest = routes;
        let n = rest.len();
        let mut i: usize = 0;
        while rest.len() > 0
            invariant
                self.wf(),
                n == all.len(),
                i + rest@.len() == n,
                rest@ == all.subrange(i as int, n as int),
                self.view() == stored_all(v0, all, i as int),
            decreases rest@.len(),
        {
            let (path, route) = rest.remove(0);
            assert(all[i as int] == (path, route));
            self.insert(path, route);
            i = i + 1;
            assert(rest@ =~= all.subrange(i as int, n as int));
        }
    }

    /// Every path with a route, each once, in the hash map's order.
    pub fn get_all_paths(&self) -> (r: Vec<String>)
        requires
            self.wf(),
        ensures
            strings_view(r@).to_set() == self.view().dom(),
            r@.len() == self.view().dom().len(),
    {
        let keys = papaya_keys(&self.routes);
        assert(self.view().dom() =~= papaya_entries(self.routes).dom());
        keys
    }
}

impl<R: Clone> PapayaRouteTable<R> {
    /// A copy of the route stored for `path`.
    pub fn get(&self, path: &str) -> (r: Option<R>)
        requires
            self.wf(),
        ensures
            self.view().dom().contains(path@) ==> (r matches Some(v) && cloned(self.view()[path@], v)),
            !self.view().dom().contains(path@) ==> r is None,
    {
        match papaya_get(&self.routes, path) {
            Some(slot) => {
                match &self.slots[slot] {
                    Some(route) => Some(route.clone()),
                    None => None,
                }
            },
            None => None,
        }
    }
}

/// What an update of one path decides from the route stored for it: store a route for the
/// path, take the path's route out, or leave the table as it is.
pub enum RouteOperation<R> {
    Insert(R),
    Remove,
    Abort,
}

/// The route stored for `k` in `m`, as the updater of `update_or_insert` sees it.
pub open spec fn current_route<'a, R>(m: &'a Map<Seq<char>, R>, k: Seq<char>) -> Option<&'a R> {
    if m.dom().contains(k) { Some(&m[k]) } else { None }
}

/// `m` after the operation `op` on the path `k`.
pub open spec fn operated<R>(m: Map<Seq<char>, R>, k: Seq<char>, op: RouteOperation<R>) -> Map<Seq<char>, R> {
    match op {
        RouteOperation::Insert(r) => m.insert(k, r),
        RouteOperation::Remove => m.remove(k),
        RouteOperation::Abort => m,
    }
}

impl<R> PapayaRouteTable<R> {
    /// Hands `updater` the route stored for `path` (if any) and carries out what it decides.
    pub fn update_or_insert<F: FnOnce(Option<&R>) -> RouteOperation<R>>(&mut self, path: String, updater: F)
        requires
            old(self).wf(),
            call_requires(updater, (current_route(&old(self).view(), path@),)),
        ensures
            final(self).wf(),
            exists|op: RouteOperation<R>| call_ensures(updater, (current_route(&old(self).view(), path@),), op)
                && final(self).view() == operated(old(self).view(), path@, op),
    {
        let cur: Option<&R> = match papaya_get(&self.routes, path.as_str()) {
            Some(slot) => match &self.slots[slot] {
                Some(route) => Some(route),
                None => None,
            },
            None => None,
        };
        assert(cur == current_route(&self.view(), path@));
        let op = updater(cur);
        let ghost op2 = op;
        match op {
            RouteOperation::Insert(route) => {
                self.insert(path, route);
            },
            RouteOperation::Remove => {
                let _ = self.remove(path.as_str());
            },
            RouteOperation::Abort => {},
        }
        assert(self.view() == operated(old(self).view(), path@, op2));
    }
}

impl<R> Default for PapayaRouteTable<R> {
    fn default() -> (t: Self)
        ensures
            t.wf(),
            t.view() == Map::<Seq<char>, R>::empty(),
    {
        Self::new()
    }
}

} // verus!

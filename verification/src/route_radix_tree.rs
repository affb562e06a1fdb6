//! A route radix tree: routes stored by path segment and shared through `Arc`, with
//! parameter and wildcard segments.
use std::sync::Arc;
use vstd::prelude::*;
use crate::cache_optimized::{RadixNodeType, no_wildcard, all_static, pairs_view};
use crate::segment_tree::{SegmentNode, lemma_paths_removable, stored_at, lookup, removable, route_total, node_total, paths_of, wf,
    lemma_wf_bare, lemma_bare_total, lemma_bare_lookup, names_fit, matches_from, captures_from, same_position, may_name, lemma_matching_finds, reach_match};
use crate::text::{segments, split_segments, strings_view, is_piece};

verus! {

/// Routes by path, each held in an `Arc` so that it can be shared without copying. A
/// segment `{name}` matches any segment and captures it under `name`; a final `*` matches
/// the rest of the path and captures it under `*`; literal segments are preferred over
/// parameters, and parameters over wildcards.
#[derive(Debug)]
pub struct RouteRadixTree<R> {
    root: SegmentNode<Arc<R>>,
}

impl<R> RouteRadixTree<R> {
    /// The trie's internal invariant.
    pub closed spec fn wf(&self) -> bool {
        wf(self.root)
    }

    /// What a lookup of `path` finds: the route and the captured parameters.
    pub closed spec fn lookup(&self, path: Seq<char>) -> Option<(Arc<R>, Seq<(Seq<char>, Seq<char>)>)> {
        lookup(self.root, segments(path), 0, Seq::empty())
    }

    /// The route that removing `path` takes out.
    pub closed spec fn removable(&self, path: Seq<char>) -> Option<Arc<R>> {
        removable(self.root, segments(path), 0)
    }

    /// The route stored at the position `path` names: each literal segment selects the
    /// literal child with that key, `{name}` the parameter child, `*` the wildcard child.
    pub closed spec fn stored_route(&self, path: Seq<char>) -> Option<Arc<R>> {
        stored_at(self.root, segments(path), 0)
    }

    /// Along the position that `path` names, each parameter node already in the tree carries
    /// the name that `path` gives it (so a parameter captured there is reported under that name).
    pub closed spec fn names_fit(&self, path: Seq<char>) -> bool {
        names_fit(self.root, segments(path), 0)
    }

    /// The number of routes stored.
    pub closed spec fn route_count(&self) -> nat {
        route_total(self.root)
    }

    /// The number of nodes, the root included.
    pub closed spec fn node_total(&self) -> nat {
        node_total(self.root)
    }

    /// The paths of the stored routes, depth first: a node's own route, then its literal
    /// children in insertion order, then its parameter child (`{name}`), then its wildcard
    /// child (`*`).
    pub closed spec fn paths(&self) -> Seq<Seq<char>> {
        paths_of(self.root, Seq::empty())
    }

    /// An empty tree.
    pub fn new() -> (t: Self)
        ensures
            t.wf(),
            forall|p: Seq<char>| #[trigger] t.lookup(p) is None,
            forall|p: Seq<char>| #[trigger] t.removable(p) is None,
            t.route_count() == 0,
            t.node_total() == 1,
            t.paths() == Seq::<Seq<char>>::empty(),
            forall|p: Seq<char>| #[trigger] t.names_fit(p),
            forall|p: Seq<char>| #[trigger] t.stored_route(p) is None,
    {
        let root = SegmentNode::new(RadixNodeType::Static(String::new()));
        proof {
            lemma_wf_bare(root);
            lemma_bare_total(root);
            crate::segment_tree::lemma_bare_facts(root);
            assert forall|p: Seq<char>| #[trigger] names_fit(root, segments(p), 0) by {
                lemma_bare_lookup(root, segments(p), 0, Seq::empty());
            }
            assert forall|p: Seq<char>| #[trigger] stored_at(root, segments(p), 0) is None by {
                crate::segment_tree::lemma_bare_stored(root, segments(p), 0);
            }
        }
        RouteRadixTree { root }
    }

    /// Stores `route` for `path`, moved into an `Arc`.
    pub fn insert(&mut self, path: &str, route: R)
        requires
            old(self).wf(),
        ensures
            final(self).wf(),
            no_wildcard(segments(path@)) ==> (final(self).lookup(path@) matches Some((x, _)) && *x == route),
            all_static(segments(path@)) ==> (final(self).lookup(path@) matches Some((x, ps)) && *x == route
                && ps == Seq::<(Seq<char>, Seq<char>)>::empty()),
            no_wildcard(segments(path@)) ==> (final(self).removable(path@) matches Some(x) && *x == route),
            final(self).stored_route(path@) matches Some(x) && *x == route,
            no_wildcard(segments(path@)) ==> forall|q: Seq<char>| matches_from(segments(path@), segments(q), 0)
                ==> (#[trigger] final(self).lookup(q)) is Some,
            forall|q: Seq<char>| !same_position(segments(path@), segments(q), 0)
                ==> #[trigger] final(self).stored_route(q) == old(self).stored_route(q),
            final(self).route_count() == old(self).route_count() + if old(self).stored_route(path@) is Some { 0int } else { 1int },
            no_wildcard(segments(path@)) ==> forall|q: Seq<char>| !matches_from(segments(path@), segments(q), 0)
                ==> #[trigger] final(self).lookup(q) == old(self).lookup(q),
            no_wildcard(segments(path@)) && old(self).names_fit(path@) ==> forall|q: Seq<char>|
                matches_from(segments(path@), segments(q), 0) && old(self).lookup(q) is None
                ==> (#[trigger] final(self).lookup(q) matches Some((x, ps)) && *x == route
                    && ps == captures_from(segments(path@), segments(q), 0)),
    {
        self.insert_arc(path, Arc::new(route));
    }

    /// Stores the shared `route` for `path`.
    pub fn insert_arc(&mut self, path: &str, route: Arc<R>)
        requires
            old(self).wf(),
        ensures
            final(self).wf(),
            no_wildcard(segments(path@)) ==> (final(self).lookup(path@) matches Some((x, _)) && x == route),
            all_static(segments(path@)) ==> final(self).lookup(path@) == Some((route, Seq::<(Seq<char>, Seq<char>)>::empty())),
            no_wildcard(segments(path@)) ==> final(self).removable(path@) == Some(route),
            final(self).stored_route(path@) == Some(route),
            no_wildcard(segments(path@)) ==> forall|q: Seq<char>| matches_from(segments(path@), segments(q), 0)
                ==> (#[trigger] final(self).lookup(q)) is Some,
            forall|q: Seq<char>| #[trigger] final(self).stored_route(q) == (
                if same_position(segments(path@), segments(q), 0) { Some(route) } else { old(self).stored_route(q) }),
            final(self).route_count() == old(self).route_count() + if old(self).stored_route(path@) is Some { 0int } else { 1int },
            no_wildcard(segments(path@)) ==> forall|q: Seq<char>| !matches_from(segments(path@), segments(q), 0)
                ==> #[trigger] final(self).lookup(q) == old(self).lookup(q),
            no_wildcard(segments(path@)) && old(self).names_fit(path@) ==> forall|q: Seq<char>|
                matches_from(segments(path@), segments(q), 0) && old(self).lookup(q) is None
                ==> #[trigger] final(self).lookup(q) == Some((route, captures_from(segments(path@), segments(q), 0))),
    {
        let segs = split_segments(path);
        proof { lemma_views(segs@, path@); }
        let ghost before = self.root;
        let ghost r2 = route;
        self.root.insert_segments(&segs, 0, route);
        proof {
            let sp = segments(path@);
            if no_wildcard(sp) {
                assert forall|q: Seq<char>| matches_from(sp, segments(q), 0) implies (#[trigger] self.lookup(q)) is Some by {
                    assert(crate::segment_tree::no_wildcard_from(sp, 0));
                    assert(stored_at(self.root, sp, 0) is Some);
                    lemma_matching_finds(self.root, sp, segments(q), 0, Seq::empty());
                }
            }
            assert forall|q: Seq<char>| #[trigger] self.stored_route(q) == (
                if same_position(sp, segments(q), 0) { Some(r2) } else { stored_at(before, segments(q), 0) }) by {
                assert(stored_at(self.root, segments(q), 0) == (
                    if same_position(sp, segments(q), 0) { Some(r2) } else { stored_at(before, segments(q), 0) }));
            }
            if no_wildcard(sp) {
                assert(crate::segment_tree::no_wildcard_from(sp, 0));
                assert forall|q: Seq<char>| !matches_from(sp, segments(q), 0)
                    implies #[trigger] self.lookup(q) == lookup(before, segments(q), 0, Seq::empty()) by {
                    assert(lookup(self.root, segments(q), 0, Seq::empty()) == lookup(before, segments(q), 0, Seq::empty()));
                }
                if names_fit(before, sp, 0) {
                    assert forall|q: Seq<char>| matches_from(sp, segments(q), 0)
                        && lookup(before, segments(q), 0, Seq::empty()) is None
                        implies #[trigger] self.lookup(q) == Some((r2, captures_from(sp, segments(q), 0))) by {
                        assert(lookup(self.root, segments(q), 0, Seq::empty())
                            == Some((r2, Seq::<(Seq<char>, Seq<char>)>::empty() + captures_from(sp, segments(q), 0))));
                        assert(Seq::<(Seq<char>, Seq<char>)>::empty() + captures_from(sp, segments(q), 0)
                            =~= captures_from(sp, segments(q), 0));
                    }
                }
            }
        }
    }

    /// Looks `path` up: the route and the captured parameters.
    pub fn find(&self, path: &str) -> (r: Option<(&Arc<R>, Vec<(String, String)>)>)
        ensures
            match self.lookup(path@) {
                Some((route, ps)) => r matches Some((x, v)) && *x == route && pairs_view(v@) == ps,
                None => r is None,
            },
    {
        let segs = split_segments(path);
        proof { lemma_views(segs@, path@); }
        let params: Vec<(String, String)> = Vec::new();
        assert(pairs_view(params@) =~= Seq::<(Seq<char>, Seq<char>)>::empty());
        self.root.find_segments(&segs, 0, params)
    }

    /// Removes the route for `path` and returns it; nodes left without route and children
    /// are dropped.
    pub fn remove(&mut self, path: &str) -> (r: Option<Arc<R>>)
        requires
            old(self).wf(),
        ensures
            final(self).wf(),
            r == old(self).removable(path@),
            r is None ==> final(self).removable(path@) is None,
            final(self).route_count() + (if r is Some { 1int } else { 0int }) == old(self).route_count(),
            forall|q: Seq<char>| r is None || !may_name(segments(path@), segments(q), 0)
                ==> #[trigger] final(self).stored_route(q) == old(self).stored_route(q),
            all_static(segments(path@)) && old(self).stored_route(path@) is Some
                ==> r == old(self).stored_route(path@) && final(self).stored_route(path@) is None,
            forall|q: Seq<char>| #[trigger] final(self).stored_route(q) == old(self).stored_route(q)
                || final(self).stored_route(q) is None,
            all_static(segments(path@)) && old(self).stored_route(path@) is Some
                && (forall|q: Seq<char>| #[trigger] old(self).stored_route(q) is Some && segments(q) != segments(path@)
                    ==> !reach_match(segments(q), segments(path@), 0))
                ==> final(self).lookup(path@) is None,
            forall|q: Seq<char>| old(self).lookup(q) is None ==> #[trigger] final(self).lookup(q) is None,
            forall|q: Seq<char>| old(self).lookup(q) matches Some((x, _)) && r != Some(x)
                ==> #[trigger] final(self).lookup(q) is Some,
    {
        let segs = split_segments(path);
        proof { lemma_views(segs@, path@); }
        let ghost before = self.root;
        let r = self.root.remove_segments(&segs, 0);
        proof {
            let sp = segments(path@);
            assert forall|q: Seq<char>| r is None || !may_name(sp, segments(q), 0)
                implies #[trigger] self.stored_route(q) == stored_at(before, segments(q), 0) by {
                assert(stored_at(self.root, segments(q), 0) == stored_at(before, segments(q), 0));
            }
            assert forall|q: Seq<char>| #[trigger] self.stored_route(q) == stored_at(before, segments(q), 0)
                || self.stored_route(q) is None by {
                assert(stored_at(self.root, segments(q), 0) == stored_at(before, segments(q), 0)
                    || stored_at(self.root, segments(q), 0) is None);
            }
            if all_static(sp) {
                assert(crate::segment_tree::all_static_from(sp, 0));
            }
            if all_static(sp) && old(self).stored_route(path@) is Some
                && (forall|q: Seq<char>| #[trigger] old(self).stored_route(q) is Some && segments(q) != sp
                    ==> !reach_match(segments(q), sp, 0)) {
                assert forall|q: Seq<char>| #[trigger] stored_at(before, segments(q), 0) is Some && segments(q) != sp
                    implies !reach_match(segments(q), sp, 0) by {
                    assert(old(self).stored_route(q) == stored_at(before, segments(q), 0));
                }
                assert(crate::segment_tree::all_static_from(sp, 0));
                assert(stored_at(self.root, sp, 0) is None);
                assert forall|pp: Seq<Seq<char>>| #[trigger] stored_at(self.root, pp, 0) == stored_at(before, pp, 0)
                    || stored_at(self.root, pp, 0) is None by {
                    assert(0 <= pp.len());
                }
                crate::segment_tree::lemma_removed_not_found(before, self.root, path@);
                assert(self.lookup(path@) is None);
            }
            assert forall|q: Seq<char>| lookup(before, segments(q), 0, Seq::empty()) is None
                implies #[trigger] self.lookup(q) is None by {
                if self.lookup(q) is Some {
                    crate::segment_tree::lemma_fewer_routes_find_less(before, self.root, segments(q), Seq::empty());
                }
            }
            assert forall|q: Seq<char>| lookup(before, segments(q), 0, Seq::empty()) matches Some((x, _)) && r != Some(x)
                implies #[trigger] self.lookup(q) is Some by {
                crate::segment_tree::lemma_other_routes_still_found(before, self.root, segments(q), Seq::empty(), r);
            }
        }
        r
    }

    /// Takes the route stored at the position `path` names (a literal segment names the
    /// literal child with that key, `{name}` the parameter child, `*` the wildcard child);
    /// nodes left without route and children are dropped.
    pub(crate) fn take_route(&mut self, path: &str) -> (r: Option<Arc<R>>)
        requires
            old(self).wf(),
        ensures
            final(self).wf(),
            r == old(self).stored_route(path@),
            final(self).route_count() + (if r is Some { 1int } else { 0int }) == old(self).route_count(),
            forall|q: Seq<char>| #[trigger] final(self).stored_route(q) == (
                if same_position(segments(path@), segments(q), 0) { None } else { old(self).stored_route(q) }),
    {
        let segs = split_segments(path);
        proof { lemma_views(segs@, path@); }
        self.root.take_segments(&segs, 0)
    }

    /// Whether a lookup of `path` finds a route.
    pub fn contains(&self, path: &str) -> (r: bool)
        ensures
            r == self.lookup(path@) is Some,
    {
        self.find(path).is_some()
    }

    /// The number of routes stored.
    pub fn count(&self) -> (r: usize)
        requires
            self.route_count() <= usize::MAX,
        ensures
            r == self.route_count(),
    {
        self.root.count_routes()
    }

    /// The number of nodes, the root included.
    pub fn node_count(&self) -> (r: usize)
        requires
            self.node_total() <= usize::MAX,
        ensures
            r == self.node_total(),
    {
        self.root.count_nodes()
    }

    /// The paths of the stored routes (see `paths`).
    pub fn list_paths(&self) -> (r: Vec<String>)
        ensures
            strings_view(r@) == self.paths(),
    {
        let mut paths: Vec<String> = Vec::new();
        let ghost empty = strings_view(paths@);
        assert(empty =~= Seq::<Seq<char>>::empty());
        proof {
            reveal_strlit("");
            assert(""@ =~= Seq::<char>::empty());
        }
        self.root.list_paths("", &mut paths);
        assert(strings_view(paths@) =~= self.paths());
        paths
    }

    /// Removes every route.
    pub fn clear(&mut self)
        ensures
            final(self).wf(),
            forall|p: Seq<char>| #[trigger] final(self).lookup(p) is None,
            final(self).route_count() == 0,
            final(self).node_total() == 1,
            final(self).paths() == Seq::<Seq<char>>::empty(),
    {
        *self = Self::new();
    }
}

impl<R> Default for RouteRadixTree<R> {
    fn default() -> (t: Self)
        ensures
            t.wf(),
            forall|p: Seq<char>| #[trigger] t.lookup(p) is None,
            t.route_count() == 0,
    {
        Self::new()
    }
}

/// The segment views of a split path.
proof fn lemma_views(v: Seq<String>, path: Seq<char>)
    requires
        v.len() == segments(path).len(),
        forall|k: int| 0 <= k < v.len() ==> #[trigger] v[k]@ == segments(path)[k],
    ensures
        strings_view(v) == segments(path),
        forall|k: int| 0 <= k < v.len() ==> is_piece(#[trigger] v[k]@),
{
    assert(strings_view(v) =~= segments(path));
    crate::text::lemma_segments_are_pieces(path);
    assert forall|k: int| 0 <= k < v.len() implies is_piece(#[trigger] v[k]@) by {
        assert(is_piece(segments(path)[k]));
    }
}

/// Listing and removal agree: every path that `list_paths` gives can be removed, that is
/// a removal of it takes a route out.
/// Paths that name the same position (parameters in the same places, whatever their names,
/// and the same other segments) find the same stored route.
pub proof fn lemma_same_position_stored<R>(t: RouteRadixTree<R>, a: Seq<char>, b: Seq<char>)
    requires
        same_position(segments(a), segments(b), 0),
    ensures
        t.stored_route(a) == t.stored_route(b),
{
    crate::segment_tree::lemma_same_position_stored(t.root, segments(a), segments(b), 0);
}

/// In a tree whose routes all stand at literal positions, removing a literal path finds a
/// route exactly when one is stored under that path, and it is that route.
pub proof fn lemma_static_tree_removable<R>(t: RouteRadixTree<R>, path: Seq<char>)
    requires
        t.wf(),
        all_static(segments(path)),
        forall|q: Seq<char>| #[trigger] t.stored_route(q) is Some ==> all_static(segments(q)),
    ensures
        t.removable(path) == t.stored_route(path),
{
    let sp = segments(path);
    assert(crate::segment_tree::all_static_from(sp, 0));
    if stored_at(t.root, sp, 0) is Some {
        crate::segment_tree::lemma_static_removal_takes_stored(t.root, sp);
    } else if removable(t.root, sp, 0) is Some {
        crate::text::lemma_segments_are_pieces(path);
        crate::segment_tree::lemma_removable_is_stored(t.root, sp, 0);
        let p = choose|p: Seq<Seq<char>>| #[trigger] stored_at(t.root, p, 0) is Some && p.len() >= 0
            && (forall|k: int| 0 <= k < 0 ==> p[k] == sp[k])
            && ((forall|k: int| 0 <= k < sp.len() ==> crate::text::is_piece(#[trigger] sp[k])) ==> forall|k: int| 0 <= k < p.len() ==> crate::text::is_piece(#[trigger] p[k]))
            && ((forall|k: int| 0 <= k < p.len() ==> crate::cache_optimized::is_static_segment(#[trigger] p[k])) ==> p == sp);
        let qq = seq!['/'] + crate::text::join_with(p, seq!['/']);
        crate::text::lemma_segments_of_joined(p);
        assert(segments(qq) == p);
        assert(t.stored_route(qq) is Some);
        assert(all_static(p));
        assert(false);
    }
}

pub proof fn lemma_listed_paths_removable<R>(t: RouteRadixTree<R>, j: int)
    requires
        t.wf(),
        0 <= j < t.paths().len(),
    ensures
        t.removable(t.paths()[j]) is Some,
        t.stored_route(t.paths()[j]) is Some,
{
    lemma_paths_removable(t.root, j);
}

} // verus!

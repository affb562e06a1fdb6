//! A tree of path segments: literal children, a parameter child and a wildcard child per
//! node, and a route at the nodes where a registered path ends. Lookups try literal
//! children first, then the parameter child, then the wildcard child, and fall back to the
//! next choice when a branch finds nothing.
use vstd::prelude::*;
use crate::cache_optimized::{RadixNodeType, is_static_segment, is_wildcard_segment, is_param_segment, pairs_view};
use crate::text::{str_eq, owned, join_with, strings_view, is_piece, segments, split_on, nonempty,
    lemma_segments_push_piece, lemma_segments_root, lemma_segments_of_joined, lemma_segments_are_pieces};

verus! {

/// A node of the segment tree.
#[derive(Debug)]
pub struct SegmentNode<R> {
    node_type: RadixNodeType,
    children: Vec<(String, SegmentNode<R>)>,
    param_child: Option<Box<SegmentNode<R>>>,
    wildcard_child: Option<Box<SegmentNode<R>>>,
    route: Option<R>,
}

/// The name of a parameter node (empty for other kinds).
spec fn name_of(t: RadixNodeType) -> Seq<char> {
    match t {
        RadixNodeType::Parameter(n) => n@,
        _ => Seq::empty(),
    }
}

/// The text a wildcard captures: the remaining segments joined with `/`.
pub open spec fn rest_text(segs: Seq<Seq<char>>, i: int) -> Seq<char> {
    join_with(segs.subrange(i, segs.len() as int), seq!['/'])
}

/// The wildcard step: the wildcard child's own route, capturing the rest of the path as `*`.
pub(crate) closed spec fn lookup_wildcard<R>(node: SegmentNode<R>, segs: Seq<Seq<char>>, i: int,
    params: Seq<(Seq<char>, Seq<char>)>) -> Option<(R, Seq<(Seq<char>, Seq<char>)>)>
{
    match node.wildcard_child {
        Some(wc) => match wc.route {
            Some(r) => Some((r, params.push((seq!['*'], rest_text(segs, i))))),
            None => None,
        },
        None => None,
    }
}

/// Looks `segs[i..]` up below `node`.
pub(crate) closed spec fn lookup<R>(node: SegmentNode<R>, segs: Seq<Seq<char>>, i: int,
    params: Seq<(Seq<char>, Seq<char>)>) -> Option<(R, Seq<(Seq<char>, Seq<char>)>)>
    decreases node, 0int,
{
    if i >= segs.len() {
        match node.route {
            Some(r) => Some((r, params)),
            None => None,
        }
    } else {
        match lookup_children(node.children@, segs, i, params, 0) {
            Some(x) => Some(x),
            None => match node.param_child {
                Some(pc) => if pc.node_type is Parameter
                    && lookup(*pc, segs, i + 1, params.push((name_of(pc.node_type), segs[i]))) is Some {
                    lookup(*pc, segs, i + 1, params.push((name_of(pc.node_type), segs[i])))
                } else {
                    lookup_wildcard(node, segs, i, params)
                },
                None => lookup_wildcard(node, segs, i, params),
            },
        }
    }
}

/// The first literal child from position `k` on whose key is `segs[i]` and below which the
/// rest of the path is found.
pub(crate) closed spec fn lookup_children<R>(children: Seq<(String, SegmentNode<R>)>, segs: Seq<Seq<char>>, i: int,
    params: Seq<(Seq<char>, Seq<char>)>, k: int) -> Option<(R, Seq<(Seq<char>, Seq<char>)>)>
    decreases children, children.len() - k,
{
    if k < 0 || k >= children.len() {
        None
    } else if children[k].0@ == segs[i] && lookup(children[k].1, segs, i + 1, params) is Some {
        lookup(children[k].1, segs, i + 1, params)
    } else {
        lookup_children(children, segs, i, params, k + 1)
    }
}

/// Well-formed tree: literal children are keyed by literal segments and are literal nodes,
/// the parameter child is a parameter node and the wildcard child a wildcard node, all the
/// way down.
/// The path part of a parameter node: `{name}`.
pub open spec fn param_part(t: RadixNodeType) -> Option<Seq<char>> {
    match t {
        RadixNodeType::Parameter(name) => Some(seq!['{'] + name@ + seq!['}']),
        _ => None,
    }
}

pub(crate) closed spec fn wf<R>(node: SegmentNode<R>) -> bool
    decreases node, 1int,
{
    &&& wf_children(node.children@, 0)
    &&& keys_unique(node.children@)
    &&& match node.param_child {
        Some(pc) => param_part(pc.node_type) matches Some(part) && is_piece(part) && wf(*pc),
        None => true,
    }
    &&& match node.wildcard_child {
        Some(wc) => wc.node_type is Wildcard && wf(*wc),
        None => true,
    }
}

/// No two literal children share a key.
pub(crate) open spec fn keys_unique<R>(children: Seq<(String, SegmentNode<R>)>) -> bool {
    forall|a: int, b: int| 0 <= a < children.len() && 0 <= b < children.len() && a != b
        ==> #[trigger] children[a].0@ != #[trigger] children[b].0@
}

pub(crate) closed spec fn wf_children<R>(children: Seq<(String, SegmentNode<R>)>, k: int) -> bool
    decreases children, children.len() - k,
{
    if k < 0 || k >= children.len() {
        true
    } else {
        &&& is_static_segment(children[k].0@)
        &&& is_piece(children[k].0@)
        &&& children[k].1.node_type == RadixNodeType::Static(children[k].0)
        &&& wf(children[k].1)
        &&& wf_children(children, k + 1)
    }
}

/// The route stored at the position that `segs[i..]` names below `node`: a literal segment
/// names the first literal child with that key, `{name}` the parameter child and `*` the
/// wildcard child.
pub(crate) closed spec fn stored_at<R>(node: SegmentNode<R>, segs: Seq<Seq<char>>, i: int) -> Option<R>
    decreases node, 0int,
{
    if i >= segs.len() || i < 0 {
        node.route
    } else if is_param_segment(segs[i]) {
        match node.param_child {
            Some(pc) => stored_at(*pc, segs, i + 1),
            None => None,
        }
    } else if is_wildcard_segment(segs[i]) {
        match node.wildcard_child {
            Some(wc) => stored_at(*wc, segs, i + 1),
            None => None,
        }
    } else {
        stored_at_children(node.children@, segs, i, 0)
    }
}

pub(crate) closed spec fn stored_at_children<R>(children: Seq<(String, SegmentNode<R>)>, segs: Seq<Seq<char>>, i: int,
    k: int) -> Option<R>
    decreases children, children.len() - k,
{
    if k < 0 || k >= children.len() {
        None
    } else if children[k].0@ == segs[i] {
        stored_at(children[k].1, segs, i + 1)
    } else {
        stored_at_children(children, segs, i, k + 1)
    }
}

/// The route that a removal of `segs[i..]` below `node` takes: the route at the end of the
/// first branch (literal children in order, then the parameter child, then the wildcard
/// child) that has one.
pub(crate) closed spec fn removable<R>(node: SegmentNode<R>, segs: Seq<Seq<char>>, i: int) -> Option<R>
    decreases node, 0int,
{
    if i >= segs.len() {
        node.route
    } else {
        match removable_children(node.children@, segs, i, 0) {
            Some(r) => Some(r),
            None => match node.param_child {
                Some(pc) => if removable(*pc, segs, i + 1) is Some {
                    removable(*pc, segs, i + 1)
                } else {
                    match node.wildcard_child {
                        Some(wc) => removable(*wc, segs, i + 1),
                        None => None,
                    }
                },
                None => match node.wildcard_child {
                    Some(wc) => removable(*wc, segs, i + 1),
                    None => None,
                },
            },
        }
    }
}

pub(crate) closed spec fn removable_children<R>(children: Seq<(String, SegmentNode<R>)>, segs: Seq<Seq<char>>, i: int, k: int) -> Option<R>
    decreases children, children.len() - k,
{
    if k < 0 || k >= children.len() {
        None
    } else if children[k].0@ == segs[i] && removable(children[k].1, segs, i + 1) is Some {
        removable(children[k].1, segs, i + 1)
    } else {
        removable_children(children, segs, i, k + 1)
    }
}

/// `prefix/part`, or `part` alone when `prefix` is empty.
pub open spec fn child_path(prefix: Seq<char>, part: Seq<char>) -> Seq<char> {
    if prefix.len() == 0 { part } else { prefix + seq!['/'] + part }
}

/// The path listed for a route whose position is `prefix`: `/` followed by it.
pub open spec fn route_path(prefix: Seq<char>) -> Seq<char> {
    if prefix.len() == 0 { seq!['/'] } else { seq!['/'] + prefix }
}

/// The paths of the routes at and below `node`, depth first: the node's own, then those
/// below each literal child in order, then below the parameter child (written `{name}`),
/// then below the wildcard child (`*`).
pub(crate) closed spec fn paths_of<R>(node: SegmentNode<R>, prefix: Seq<char>) -> Seq<Seq<char>>
    decreases node, 1int,
{
    (if node.route is Some { seq![route_path(prefix)] } else { Seq::empty() })
        + paths_children(node.children@, prefix, node.children@.len() as int)
        + param_paths(node, prefix)
        + wildcard_paths(node, prefix)
}

pub(crate) closed spec fn paths_children<R>(children: Seq<(String, SegmentNode<R>)>, prefix: Seq<char>, k: int) -> Seq<Seq<char>>
    decreases children, k,
{
    if k <= 0 || k > children.len() {
        Seq::empty()
    } else {
        paths_children(children, prefix, k - 1) + paths_of(children[k - 1].1, child_path(prefix, children[k - 1].0@))
    }
}

pub(crate) closed spec fn param_paths<R>(node: SegmentNode<R>, prefix: Seq<char>) -> Seq<Seq<char>>
    decreases node, 0int,
{
    match node.param_child {
        Some(pc) => match pc.node_type {
            RadixNodeType::Parameter(name) => paths_of(*pc, child_path(prefix, seq!['{'] + name@ + seq!['}'])),
            _ => Seq::empty(),
        },
        None => Seq::empty(),
    }
}

pub(crate) closed spec fn wildcard_paths<R>(node: SegmentNode<R>, prefix: Seq<char>) -> Seq<Seq<char>>
    decreases node, 0int,
{
    match node.wildcard_child {
        Some(wc) => paths_of(*wc, child_path(prefix, seq!['*'])),
        None => Seq::empty(),
    }
}

/// The number of routes in the tree.
pub(crate) closed spec fn route_total<R>(node: SegmentNode<R>) -> nat
    decreases node, 0int,
{
    (if node.route is Some { 1nat } else { 0nat })
        + children_total(node.children@, node.children@.len() as int)
        + match node.param_child { Some(pc) => route_total(*pc), None => 0nat }
        + match node.wildcard_child { Some(wc) => route_total(*wc), None => 0nat }
}

/// The number of routes below the first `k` literal children.
pub(crate) closed spec fn children_total<R>(children: Seq<(String, SegmentNode<R>)>, k: int) -> nat
    decreases children, k,
{
    if k <= 0 || k > children.len() {
        0
    } else {
        children_total(children, k - 1) + route_total(children[k - 1].1)
    }
}

/// The number of nodes in the tree.
pub(crate) closed spec fn node_total<R>(node: SegmentNode<R>) -> nat
    decreases node, 0int,
{
    1 + children_nodes(node.children@, node.children@.len() as int)
        + match node.param_child { Some(pc) => node_total(*pc), None => 0nat }
        + match node.wildcard_child { Some(wc) => node_total(*wc), None => 0nat }
}

/// The number of nodes below the first `k` literal children.
pub(crate) closed spec fn children_nodes<R>(children: Seq<(String, SegmentNode<R>)>, k: int) -> nat
    decreases children, k,
{
    if k <= 0 || k > children.len() {
        0
    } else {
        children_nodes(children, k - 1) + node_total(children[k - 1].1)
    }
}

/// No segment of `segs` from position `i` on is the wildcard.
pub open spec fn no_wildcard_from(segs: Seq<Seq<char>>, i: int) -> bool {
    forall|k: int| i <= k < segs.len() ==> !is_wildcard_segment(#[trigger] segs[k])
}

/// Every segment of `segs` from position `i` on is a literal.
pub open spec fn all_static_from(segs: Seq<Seq<char>>, i: int) -> bool {
    forall|k: int| i <= k < segs.len() ==> is_static_segment(#[trigger] segs[k])
}

/// The name a parameter segment `{name}` gives.
pub open spec fn param_name_of(seg: Seq<char>) -> Seq<char> {
    seg.subrange(1, seg.len() - 1)
}

/// `q` matches the pattern `p` from position `i` on: both have the same number of
/// segments, and each segment of `p` from `i` on is a parameter or equals the segment of `q`
/// at its place.
pub open spec fn matches_from(p: Seq<Seq<char>>, q: Seq<Seq<char>>, i: int) -> bool {
    &&& p.len() == q.len()
    &&& forall|k: int| i <= k < p.len() ==> is_param_segment(#[trigger] p[k]) || p[k] == q[k]
}

/// What `q` gives the parameters of the pattern `p` from position `i` on: for each
/// parameter segment of `p`, in order, its name and the segment of `q` at its place.
pub open spec fn captures_from(p: Seq<Seq<char>>, q: Seq<Seq<char>>, i: int) -> Seq<(Seq<char>, Seq<char>)>
    decreases p.len() - i,
{
    if i < 0 || i >= p.len() {
        Seq::empty()
    } else if is_param_segment(p[i]) {
        seq![(param_name_of(p[i]), q[i])] + captures_from(p, q, i + 1)
    } else {
        captures_from(p, q, i + 1)
    }
}

/// Along the position that `segs[i..]` names below `node`, each parameter node already there
/// carries the name that the segment at its place gives.
pub(crate) closed spec fn names_fit<R>(node: SegmentNode<R>, segs: Seq<Seq<char>>, i: int) -> bool
    decreases node, 0int,
{
    if i >= segs.len() || i < 0 {
        true
    } else if is_param_segment(segs[i]) {
        match node.param_child {
            Some(pc) => name_of(pc.node_type) == param_name_of(segs[i]) && names_fit(*pc, segs, i + 1),
            None => true,
        }
    } else if is_wildcard_segment(segs[i]) {
        true
    } else {
        names_fit_children(node.children@, segs, i, 0)
    }
}

pub(crate) closed spec fn names_fit_children<R>(children: Seq<(String, SegmentNode<R>)>, segs: Seq<Seq<char>>, i: int,
    k: int) -> bool
    decreases children, children.len() - k,
{
    if k < 0 || k >= children.len() {
        true
    } else if children[k].0@ == segs[i] {
        names_fit(children[k].1, segs, i + 1)
    } else {
        names_fit_children(children, segs, i, k + 1)
    }
}

/// One step of `matches_from`.
pub(crate) proof fn lemma_matches_step(p: Seq<Seq<char>>, q: Seq<Seq<char>>, i: int)
    requires
        0 <= i < p.len(),
    ensures
        matches_from(p, q, i) == (p.len() == q.len() && (is_param_segment(p[i]) || p[i] == q[i])
            && matches_from(p, q, i + 1)),
{
    if p.len() == q.len() && (is_param_segment(p[i]) || p[i] == q[i]) && matches_from(p, q, i + 1) {
        assert forall|k: int| i <= k < p.len() implies is_param_segment(#[trigger] p[k]) || p[k] == q[k] by {
            if k > i {
                assert(is_param_segment(p[k]) || p[k] == q[k]);
            }
        }
    }
}

/// `q` names the same position as `p` from position `i` on: both have the same number of
/// segments, and at each place both are parameters (whatever their names) or both are the
/// same segment.
pub open spec fn same_position(p: Seq<Seq<char>>, q: Seq<Seq<char>>, i: int) -> bool {
    &&& p.len() == q.len()
    &&& forall|k: int| i <= k < p.len() ==> (is_param_segment(#[trigger] p[k]) && is_param_segment(q[k])) || p[k] == q[k]
}

/// One step of `same_position`.
proof fn lemma_same_position_step(p: Seq<Seq<char>>, q: Seq<Seq<char>>, i: int)
    requires
        0 <= i < p.len(),
    ensures
        same_position(p, q, i) == (p.len() == q.len()
            && ((is_param_segment(p[i]) && is_param_segment(q[i])) || p[i] == q[i])
            && same_position(p, q, i + 1)),
{
    if p.len() == q.len() && ((is_param_segment(p[i]) && is_param_segment(q[i])) || p[i] == q[i])
        && same_position(p, q, i + 1) {
        assert forall|k: int| i <= k < p.len() implies
            (is_param_segment(#[trigger] p[k]) && is_param_segment(q[k])) || p[k] == q[k] by {
            if k > i {
                assert((is_param_segment(p[k]) && is_param_segment(q[k])) || p[k] == q[k]);
            }
        }
    }
}

/// Replacing child `j` by one with the same key that stores the same at `segs[i + 1..]`
/// leaves the position `segs[i..]` unchanged.
proof fn lemma_stored_children_update_same<R>(c: Seq<(String, SegmentNode<R>)>, j: int, e: (String, SegmentNode<R>),
    segs: Seq<Seq<char>>, i: int, k: int)
    requires
        0 <= j < c.len(),
        e.0 == c[j].0,
        c[j].0@ != segs[i] || stored_at(e.1, segs, i + 1) == stored_at(c[j].1, segs, i + 1),
    ensures
        stored_at_children(c.update(j, e), segs, i, k) == stored_at_children(c, segs, i, k),
    decreases c.len() - k,
{
    if 0 <= k < c.len() {
        lemma_stored_children_update_same(c, j, e, segs, i, k + 1);
        assert(c.update(j, e)[k] == if k == j { e } else { c[k] });
    }
}

/// Appending a child that stores nothing at `segs[i + 1..]` leaves the position `segs[i..]`
/// unchanged.
proof fn lemma_stored_children_push_same<R>(c: Seq<(String, SegmentNode<R>)>, e: (String, SegmentNode<R>),
    segs: Seq<Seq<char>>, i: int, k: int)
    requires
        0 <= k,
        e.0@ != segs[i] || stored_at(e.1, segs, i + 1) is None,
    ensures
        stored_at_children(c.push(e), segs, i, k) == stored_at_children(c, segs, i, k),
    decreases c.len() + 1 - k,
{
    if k < c.len() {
        lemma_stored_children_push_same(c, e, segs, i, k + 1);
        assert(c.push(e)[k] == c[k]);
    } else if k == c.len() {
        assert(c.push(e)[k] == e);
        assert(stored_at_children(c.push(e), segs, i, k + 1) is None);
    }
}

/// The position of a route that a removal of `p` from position `i` on may take could be the
/// one that `q` names: both have the same number of segments, and at each place `q` has a
/// parameter, the wildcard, or the segment of `p`.
pub open spec fn may_name(p: Seq<Seq<char>>, q: Seq<Seq<char>>, i: int) -> bool {
    &&& p.len() == q.len()
    &&& forall|k: int| i <= k < p.len() ==> is_param_segment(#[trigger] q[k]) || is_wildcard_segment(q[k]) || q[k] == p[k]
}

/// One step of `may_name`.
proof fn lemma_may_name_step(p: Seq<Seq<char>>, q: Seq<Seq<char>>, i: int)
    requires
        0 <= i < p.len(),
    ensures
        may_name(p, q, i) == (p.len() == q.len()
            && (is_param_segment(q[i]) || is_wildcard_segment(q[i]) || q[i] == p[i])
            && may_name(p, q, i + 1)),
{
    if p.len() == q.len() && (is_param_segment(q[i]) || is_wildcard_segment(q[i]) || q[i] == p[i])
        && may_name(p, q, i + 1) {
        assert forall|k: int| i <= k < p.len() implies
            is_param_segment(#[trigger] q[k]) || is_wildcard_segment(q[k]) || q[k] == p[k] by {
            if k > i {
                assert(is_param_segment(q[k]) || is_wildcard_segment(q[k]) || q[k] == p[k]);
            }
        }
    }
}

/// For a path of literal segments whose position holds a route, a removal takes that route.
proof fn lemma_static_removable<R>(node: SegmentNode<R>, segs: Seq<Seq<char>>, i: int)
    requires
        wf(node),
        0 <= i,
        all_static_from(segs, i),
        stored_at(node, segs, i) is Some,
    ensures
        removable(node, segs, i) == stored_at(node, segs, i),
        i < segs.len() ==> removable_children(node.children@, segs, i, 0) == stored_at(node, segs, i),
    decreases node, 0int,
{
    if i < segs.len() {
        lemma_wf_unfold(node);
        assert(is_static_segment(segs[i]));
        let c = node.children@;
        lemma_stored_children_keyed(c, segs, i);
        if exists|m: int| 0 <= m < c.len() && (#[trigger] c[m]).0@ == segs[i] {
            let m = choose|m: int| 0 <= m < c.len() && (#[trigger] c[m]).0@ == segs[i];
            assert(stored_at_children(c, segs, i, 0) == stored_at(c[m].1, segs, i + 1));
            lemma_wf_children_at(c, 0, m);
            assert(all_static_from(segs, i + 1));
            lemma_static_removable(c[m].1, segs, i + 1);
            assert forall|j: int| 0 <= j < m implies (#[trigger] c[j]).0@ != segs[i] by {
                assert(c[j].0@ != c[m].0@);
            }
            lemma_removable_children_first(c, segs, i, 0, m);
        } else {
            assert forall|m: int| 0 <= m < c.len() implies (#[trigger] c[m]).0@ != segs[i] by {}
        }
    }
}

/// A path that matches a pattern whose position holds a route finds a route: the search
/// tries the pattern's own branch, if nothing before it succeeds.
pub(crate) proof fn lemma_matching_finds<R>(node: SegmentNode<R>, p: Seq<Seq<char>>, q: Seq<Seq<char>>, i: int,
    ps: Seq<(Seq<char>, Seq<char>)>)
    requires
        wf(node),
        0 <= i,
        no_wildcard_from(p, i),
        matches_from(p, q, i),
        stored_at(node, p, i) is Some,
    ensures
        lookup(node, q, i, ps) is Some,
    decreases node, 0int,
{
    if i < p.len() {
        lemma_wf_unfold(node);
        lemma_matches_step(p, q, i);
        assert(no_wildcard_from(p, i + 1));
        if is_param_segment(p[i]) {
            let pc = node.param_child->0;
            let ps2 = ps.push((name_of(pc.node_type), q[i]));
            lemma_matching_finds(*pc, p, q, i + 1, ps2);
        } else {
            assert(!is_wildcard_segment(p[i]));
            let c = node.children@;
            lemma_stored_children_keyed(c, p, i);
            if exists|m: int| 0 <= m < c.len() && (#[trigger] c[m]).0@ == p[i] {
                let m = choose|m: int| 0 <= m < c.len() && (#[trigger] c[m]).0@ == p[i];
                lemma_wf_children_at(c, 0, m);
                lemma_matching_finds(c[m].1, p, q, i + 1, ps);
                assert forall|j: int| 0 <= j < m implies (#[trigger] c[j]).0@ != q[i] by {
                    assert(c[j].0@ != c[m].0@);
                }
                lemma_children_first(c, q, i, ps, 0, m);
            } else {
                assert forall|m: int| 0 <= m < c.len() implies (#[trigger] c[m]).0@ != p[i] by {}
            }
        }
    }
}

/// Segment lists naming the same position name the same stored route.
pub(crate) proof fn lemma_same_position_stored<R>(node: SegmentNode<R>, p: Seq<Seq<char>>, q: Seq<Seq<char>>, i: int)
    requires
        0 <= i,
        same_position(p, q, i),
    ensures
        stored_at(node, p, i) == stored_at(node, q, i),
    decreases node, 0int,
{
    if i < p.len() {
        lemma_same_position_step(p, q, i);
        if is_param_segment(p[i]) {
            match node.param_child {
                Some(pc) => { lemma_same_position_stored(*pc, p, q, i + 1); },
                None => {},
            }
        } else if is_wildcard_segment(p[i]) {
            match node.wildcard_child {
                Some(wc) => { lemma_same_position_stored(*wc, p, q, i + 1); },
                None => {},
            }
        } else {
            lemma_stored_children_same_position(node.children@, p, q, i, 0);
        }
    }
}

proof fn lemma_stored_children_same_position<R>(c: Seq<(String, SegmentNode<R>)>, p: Seq<Seq<char>>, q: Seq<Seq<char>>,
    i: int, k: int)
    requires
        0 <= i < p.len(),
        same_position(p, q, i + 1),
        p.len() == q.len(),
        p[i] == q[i],
    ensures
        stored_at_children(c, p, i, k) == stored_at_children(c, q, i, k),
    decreases c, c.len() - k,
{
    if 0 <= k < c.len() {
        if c[k].0@ == p[i] {
            lemma_same_position_stored(c[k].1, p, q, i + 1);
        } else {
            lemma_stored_children_same_position(c, p, q, i, k + 1);
        }
    }
}

/// A removal that finds a route takes it from a stored position: one that follows `segs`
/// through literal children and may take the parameter or wildcard child instead.
pub(crate) proof fn lemma_removable_is_stored<R>(node: SegmentNode<R>, segs: Seq<Seq<char>>, i: int)
    requires
        wf(node),
        0 <= i <= segs.len(),
        removable(node, segs, i) is Some,
    ensures
        exists|p: Seq<Seq<char>>| #[trigger] stored_at(node, p, i) is Some && p.len() >= i
            && (forall|k: int| 0 <= k < i ==> p[k] == segs[k])
            && ((forall|k: int| 0 <= k < segs.len() ==> is_piece(#[trigger] segs[k])) ==> forall|k: int| 0 <= k < p.len() ==> is_piece(#[trigger] p[k]))
            && ((forall|k: int| i <= k < p.len() ==> is_static_segment(#[trigger] p[k])) ==> p == segs),
    decreases node, 0int,
{
    lemma_wf_unfold(node);
    if i >= segs.len() {
        assert(stored_at(node, segs, i) is Some);
    } else if removable_children(node.children@, segs, i, 0) is Some {
        let c = node.children@;
        lemma_removable_children_some_at(c, segs, i, 0);
        let m = choose|m: int| 0 <= m < c.len() && (#[trigger] c[m]).0@ == segs[i] && removable(c[m].1, segs, i + 1) is Some;
        lemma_wf_children_at(c, 0, m);
        lemma_removable_is_stored(c[m].1, segs, i + 1);
        let p0 = choose|p: Seq<Seq<char>>| #[trigger] stored_at(c[m].1, p, i + 1) is Some && p.len() >= i + 1
            && (forall|k: int| 0 <= k < i + 1 ==> p[k] == segs[k])
            && ((forall|k: int| 0 <= k < segs.len() ==> is_piece(#[trigger] segs[k])) ==> forall|k: int| 0 <= k < p.len() ==> is_piece(#[trigger] p[k]))
            && ((forall|k: int| i + 1 <= k < p.len() ==> is_static_segment(#[trigger] p[k])) ==> p == segs);
        assert(p0[i] == segs[i]);
        assert(is_static_segment(p0[i]));
        lemma_stored_children_keyed(c, p0, i);
        assert(stored_at(node, p0, i) is Some);
    } else if node.param_child is Some && removable(*node.param_child->0, segs, i + 1) is Some {
        let pc = *node.param_child->0;
        lemma_removable_is_stored(pc, segs, i + 1);
        let p0 = choose|p: Seq<Seq<char>>| #[trigger] stored_at(pc, p, i + 1) is Some && p.len() >= i + 1
            && (forall|k: int| 0 <= k < i + 1 ==> p[k] == segs[k])
            && ((forall|k: int| 0 <= k < segs.len() ==> is_piece(#[trigger] segs[k])) ==> forall|k: int| 0 <= k < p.len() ==> is_piece(#[trigger] p[k]))
            && ((forall|k: int| i + 1 <= k < p.len() ==> is_static_segment(#[trigger] p[k])) ==> p == segs);
        let p = p0.update(i, seq!['{', '}']);
        assert(is_param_segment(p[i]));
        assert(is_piece(seq!['{', '}']));
        lemma_stored_suffix(pc, p, p0, i + 1);
        if forall|k: int| 0 <= k < segs.len() ==> is_piece(#[trigger] segs[k]) {
            assert forall|k: int| 0 <= k < p.len() implies is_piece(#[trigger] p[k]) by {
                if k != i { assert(p[k] == p0[k]); }
            }
        }
        assert(stored_at(node, p, i) is Some);
    } else {
        let wc = *node.wildcard_child->0;
        assert(removable(wc, segs, i + 1) is Some);
        lemma_removable_is_stored(wc, segs, i + 1);
        let p0 = choose|p: Seq<Seq<char>>| #[trigger] stored_at(wc, p, i + 1) is Some && p.len() >= i + 1
            && (forall|k: int| 0 <= k < i + 1 ==> p[k] == segs[k])
            && ((forall|k: int| 0 <= k < segs.len() ==> is_piece(#[trigger] segs[k])) ==> forall|k: int| 0 <= k < p.len() ==> is_piece(#[trigger] p[k]))
            && ((forall|k: int| i + 1 <= k < p.len() ==> is_static_segment(#[trigger] p[k])) ==> p == segs);
        let p = p0.update(i, seq!['*']);
        assert(!is_param_segment(p[i]) && is_wildcard_segment(p[i]));
        assert(is_piece(seq!['*']));
        lemma_stored_suffix(wc, p, p0, i + 1);
        if forall|k: int| 0 <= k < segs.len() ==> is_piece(#[trigger] segs[k]) {
            assert forall|k: int| 0 <= k < p.len() implies is_piece(#[trigger] p[k]) by {
                if k != i { assert(p[k] == p0[k]); }
            }
        }
        assert(stored_at(node, p, i) is Some);
    }
}

/// A removal of an all-literal position that holds a route takes that route.
pub(crate) proof fn lemma_static_removal_takes_stored<R>(node: SegmentNode<R>, segs: Seq<Seq<char>>)
    requires
        wf(node),
        all_static_from(segs, 0),
        stored_at(node, segs, 0) is Some,
    ensures
        removable(node, segs, 0) == stored_at(node, segs, 0),
{
    lemma_static_removable(node, segs, 0);
}

/// A literal step that removes something goes through a child keyed by the segment.
proof fn lemma_removable_children_some_at<R>(c: Seq<(String, SegmentNode<R>)>, segs: Seq<Seq<char>>, i: int, k: int)
    requires
        removable_children(c, segs, i, k) is Some,
    ensures
        exists|m: int| k <= m < c.len() && (#[trigger] c[m]).0@ == segs[i] && removable(c[m].1, segs, i + 1) is Some,
    decreases c.len() - k,
{
    if 0 <= k < c.len() && !(c[k].0@ == segs[i] && removable(c[k].1, segs, i + 1) is Some) {
        lemma_removable_children_some_at(c, segs, i, k + 1);
    }
}

/// The route a successful lookup gives.
pub(crate) open spec fn found_route<R>(x: Option<(R, Seq<(Seq<char>, Seq<char>)>)>) -> R {
    match x {
        Some((r, _)) => r,
        None => arbitrary(),
    }
}

/// `p` names a position at which a lookup of `q` can end, from segment `i` on: a parameter
/// takes any segment and a literal itself, and `p` either has no wildcard and as many
/// segments as `q`, or ends with a `*` that takes the rest of `q` (one segment at least).
pub open spec fn reach_match(p: Seq<Seq<char>>, q: Seq<Seq<char>>, i: int) -> bool {
    ||| matches_from(p, q, i) && no_wildcard_from(p, i)
    ||| (i < p.len() <= q.len() && is_wildcard_segment(p[p.len() - 1])
        && forall|k: int| i <= k < p.len() - 1 ==> (is_param_segment(#[trigger] p[k]) || (p[k] == q[k] && !is_wildcard_segment(p[k]))))
}

/// What is stored at a position depends only on its segments from `i` on.
proof fn lemma_stored_suffix<R>(node: SegmentNode<R>, p: Seq<Seq<char>>, p2: Seq<Seq<char>>, i: int)
    requires
        0 <= i,
        p.len() == p2.len(),
        forall|k: int| i <= k < p.len() ==> #[trigger] p[k] == p2[k],
    ensures
        stored_at(node, p, i) == stored_at(node, p2, i),
    decreases node, 0int,
{
    if i < p.len() {
        if is_param_segment(p[i]) {
            match node.param_child {
                Some(pc) => { lemma_stored_suffix(*pc, p, p2, i + 1); },
                None => {},
            }
        } else if is_wildcard_segment(p[i]) {
            match node.wildcard_child {
                Some(wc) => { lemma_stored_suffix(*wc, p, p2, i + 1); },
                None => {},
            }
        } else {
            lemma_stored_children_suffix(node.children@, p, p2, i, 0);
        }
    }
}

proof fn lemma_stored_children_suffix<R>(c: Seq<(String, SegmentNode<R>)>, p: Seq<Seq<char>>, p2: Seq<Seq<char>>,
    i: int, k: int)
    requires
        0 <= i < p.len(),
        p.len() == p2.len(),
        forall|j: int| i <= j < p.len() ==> #[trigger] p[j] == p2[j],
    ensures
        stored_at_children(c, p, i, k) == stored_at_children(c, p2, i, k),
    decreases c, c.len() - k,
{
    if 0 <= k < c.len() {
        assert(p[i] == p2[i]);
        if c[k].0@ == p[i] {
            lemma_stored_suffix(c[k].1, p, p2, i + 1);
        } else {
            lemma_stored_children_suffix(c, p, p2, i, k + 1);
        }
    }
}

/// A literal step that finds something goes through a child keyed by the segment.
proof fn lemma_lookup_children_some<R>(c: Seq<(String, SegmentNode<R>)>, segs: Seq<Seq<char>>, i: int,
    ps: Seq<(Seq<char>, Seq<char>)>, k: int)
    requires
        lookup_children(c, segs, i, ps, k) is Some,
    ensures
        exists|m: int| k <= m < c.len() && (#[trigger] c[m]).0@ == segs[i] && lookup(c[m].1, segs, i + 1, ps) is Some,
    decreases c.len() - k,
{
    if 0 <= k < c.len() && !(c[k].0@ == segs[i] && lookup(c[k].1, segs, i + 1, ps) is Some) {
        lemma_lookup_children_some(c, segs, i, ps, k + 1);
    }
}

/// A lookup that finds something ends at a stored route whose position matches the path.
pub(crate) proof fn lemma_found_is_stored<R>(node: SegmentNode<R>, q: Seq<Seq<char>>, i: int,
    ps: Seq<(Seq<char>, Seq<char>)>)
    requires
        wf(node),
        0 <= i <= q.len(),
        lookup(node, q, i, ps) is Some,
    ensures
        exists|p: Seq<Seq<char>>| #[trigger] stored_at(node, p, i) == Some(found_route(lookup(node, q, i, ps))) && reach_match(p, q, i)
            && (forall|k: int| 0 <= k < i ==> p[k] == q[k])
            && ((forall|k: int| 0 <= k < q.len() ==> is_piece(#[trigger] q[k])) ==> forall|k: int| 0 <= k < p.len() ==> is_piece(#[trigger] p[k])),
    decreases node, 0int,
{
    lemma_wf_unfold(node);
    if i >= q.len() {
        assert(stored_at(node, q, i) == Some(found_route(lookup(node, q, i, ps))) && reach_match(q, q, i));
    } else if lookup_children(node.children@, q, i, ps, 0) is Some {
        let c = node.children@;
        lemma_lookup_children_some(c, q, i, ps, 0);
        let m = choose|m: int| 0 <= m < c.len() && (#[trigger] c[m]).0@ == q[i] && lookup(c[m].1, q, i + 1, ps) is Some;
        lemma_wf_children_at(c, 0, m);
        lemma_found_is_stored(c[m].1, q, i + 1, ps);
        let p = choose|p: Seq<Seq<char>>| #[trigger] stored_at(c[m].1, p, i + 1) == Some(found_route(lookup(c[m].1, q, i + 1, ps)))
            && reach_match(p, q, i + 1) && (forall|k: int| 0 <= k < i + 1 ==> p[k] == q[k])
            && ((forall|k: int| 0 <= k < q.len() ==> is_piece(#[trigger] q[k])) ==> forall|k: int| 0 <= k < p.len() ==> is_piece(#[trigger] p[k]));
        assert forall|j: int| 0 <= j < m implies (#[trigger] c[j]).0@ != q[i] by {
            assert(c[j].0@ != c[m].0@);
        }
        lemma_children_first(c, q, i, ps, 0, m);
        assert(p[i] == q[i]);
        lemma_stored_children_keyed(c, p, i);
        assert(stored_at(node, p, i) == stored_at(c[m].1, p, i + 1));
        if matches_from(p, q, i + 1) && no_wildcard_from(p, i + 1) {
            assert(matches_from(p, q, i));
            assert(no_wildcard_from(p, i));
        } else {
            assert(i < p.len());
        }
        assert(stored_at(node, p, i) == Some(found_route(lookup(node, q, i, ps))) && reach_match(p, q, i));
    } else {
        let ps2 = match node.param_child { Some(pc) => ps.push((name_of(pc.node_type), q[i])), None => ps };
        if node.param_child is Some && node.param_child->0.node_type is Parameter
            && lookup(*node.param_child->0, q, i + 1, ps2) is Some {
            let pc = *node.param_child->0;
            lemma_found_is_stored(pc, q, i + 1, ps2);
            let p0 = choose|p: Seq<Seq<char>>| #[trigger] stored_at(pc, p, i + 1) == Some(found_route(lookup(pc, q, i + 1, ps2)))
                && reach_match(p, q, i + 1) && (forall|k: int| 0 <= k < i + 1 ==> p[k] == q[k])
                && ((forall|k: int| 0 <= k < q.len() ==> is_piece(#[trigger] q[k])) ==> forall|k: int| 0 <= k < p.len() ==> is_piece(#[trigger] p[k]));
            let p = p0.update(i, seq!['{', '}']);
            assert(is_param_segment(p[i]));
            assert(is_piece(seq!['{', '}']));
            if forall|k: int| 0 <= k < q.len() ==> is_piece(#[trigger] q[k]) {
                assert forall|k: int| 0 <= k < p.len() implies is_piece(#[trigger] p[k]) by {
                    if k != i { assert(p[k] == p0[k]); }
                }
            }
            lemma_stored_suffix(pc, p, p0, i + 1);
            if matches_from(p0, q, i + 1) && no_wildcard_from(p0, i + 1) {
                assert(matches_from(p, q, i));
                assert(no_wildcard_from(p, i));
            } else {
                assert forall|k: int| i <= k < p.len() - 1 implies (is_param_segment(#[trigger] p[k])
                    || (p[k] == q[k] && !is_wildcard_segment(p[k]))) by {
                    if k > i {
                        assert(p[k] == p0[k]);
                    }
                }
            }
            assert(stored_at(node, p, i) == Some(found_route(lookup(node, q, i, ps))) && reach_match(p, q, i));
        } else {
            let wc = *node.wildcard_child->0;
            let p = q.subrange(0, i).push(seq!['*']);
            assert(is_piece(seq!['*']));
            if forall|k: int| 0 <= k < q.len() ==> is_piece(#[trigger] q[k]) {
                assert forall|k: int| 0 <= k < p.len() implies is_piece(#[trigger] p[k]) by {
                    if k < i { assert(p[k] == q[k]); }
                }
            }
            assert(!is_param_segment(p[i]));
            assert(stored_at(node, p, i) == stored_at(wc, p, i + 1));
            assert(stored_at(node, p, i) == Some(found_route(lookup(node, q, i, ps))) && reach_match(p, q, i));
        }
    }
}

/// A stored route whose position ends with `*` and matches the path is found by a lookup.
proof fn lemma_wild_finds<R>(node: SegmentNode<R>, p: Seq<Seq<char>>, q: Seq<Seq<char>>, i: int,
    ps: Seq<(Seq<char>, Seq<char>)>)
    requires
        wf(node),
        0 <= i,
        i < p.len() <= q.len(),
        is_wildcard_segment(p[p.len() - 1]),
        forall|k: int| i <= k < p.len() - 1 ==> (is_param_segment(#[trigger] p[k]) || (p[k] == q[k] && !is_wildcard_segment(p[k]))),
        stored_at(node, p, i) is Some,
    ensures
        lookup(node, q, i, ps) is Some,
    decreases node, 0int,
{
    lemma_wf_unfold(node);
    let c = node.children@;
    if i == p.len() - 1 {
        assert(!is_param_segment(p[i]));
        let wc = *node.wildcard_child->0;
        assert(stored_at(node, p, i) == stored_at(wc, p, i + 1));
        assert(wc.route is Some);
        assert(lookup_wildcard(node, q, i, ps) is Some);
        if lookup_children(c, q, i, ps, 0) is None {
            match node.param_child {
                Some(pc) => {
                    let ps2 = ps.push((name_of(pc.node_type), q[i]));
                    if pc.node_type is Parameter && lookup(*pc, q, i + 1, ps2) is Some {
                        assert(lookup(node, q, i, ps) == lookup(*pc, q, i + 1, ps2));
                    } else {
                        assert(lookup(node, q, i, ps) == lookup_wildcard(node, q, i, ps));
                    }
                },
                None => {
                    assert(lookup(node, q, i, ps) == lookup_wildcard(node, q, i, ps));
                },
            }
        }
    } else if is_param_segment(p[i]) {
        let pc = *node.param_child->0;
        let ps2 = ps.push((name_of(pc.node_type), q[i]));
        lemma_wild_finds(pc, p, q, i + 1, ps2);
        assert(pc.node_type is Parameter);
        if lookup_children(c, q, i, ps, 0) is None {
            assert(lookup(node, q, i, ps) == lookup(pc, q, i + 1, ps2));
        }
    } else {
        assert(p[i] == q[i]);
        lemma_stored_children_keyed(c, p, i);
        if forall|m: int| 0 <= m < c.len() ==> (#[trigger] c[m]).0@ != p[i] {
            assert(false);
        }
        let m = choose|m: int| 0 <= m < c.len() && (#[trigger] c[m]).0@ == p[i];
        lemma_wf_children_at(c, 0, m);
        lemma_wild_finds(c[m].1, p, q, i + 1, ps);
        assert forall|j: int| 0 <= j < m implies (#[trigger] c[j]).0@ != q[i] by {
            assert(c[j].0@ != c[m].0@);
        }
        lemma_children_first(c, q, i, ps, 0, m);
    }
}

/// Removing routes never makes a lookup find something it did not find before: a tree
/// whose every stored route is stored alike in another finds only what the other finds.
pub(crate) proof fn lemma_fewer_routes_find_less<R>(a: SegmentNode<R>, b: SegmentNode<R>, q: Seq<Seq<char>>,
    ps: Seq<(Seq<char>, Seq<char>)>)
    requires
        wf(a),
        wf(b),
        forall|p: Seq<Seq<char>>| #[trigger] stored_at(b, p, 0) == stored_at(a, p, 0) || stored_at(b, p, 0) is None,
        lookup(b, q, 0, ps) is Some,
    ensures
        lookup(a, q, 0, ps) is Some,
{
    lemma_found_is_stored(b, q, 0, ps);
    let p = choose|p: Seq<Seq<char>>| #[trigger] stored_at(b, p, 0) == Some(found_route(lookup(b, q, 0, ps)))
        && reach_match(p, q, 0) && forall|k: int| 0 <= k < 0 ==> p[k] == q[k]
        && ((forall|k: int| 0 <= k < q.len() ==> is_piece(#[trigger] q[k])) ==> forall|k: int| 0 <= k < p.len() ==> is_piece(#[trigger] p[k]));
    assert(stored_at(a, p, 0) is Some);
    if matches_from(p, q, 0) && no_wildcard_from(p, 0) {
        lemma_matching_finds(a, p, q, 0, ps);
    } else {
        lemma_wild_finds(a, p, q, 0, ps);
    }
}

/// When a tree differs from another only in positions that lost the route `r`, a lookup that
/// found some other route in the other still finds a route.
pub(crate) proof fn lemma_other_routes_still_found<R>(a: SegmentNode<R>, b: SegmentNode<R>, q: Seq<Seq<char>>,
    ps: Seq<(Seq<char>, Seq<char>)>, r: Option<R>)
    requires
        wf(a),
        wf(b),
        forall|p: Seq<Seq<char>>| #[trigger] stored_at(b, p, 0) == stored_at(a, p, 0) || stored_at(b, p, 0) is None,
        forall|p: Seq<Seq<char>>| #[trigger] stored_at(b, p, 0) is None && stored_at(a, p, 0) is Some
            ==> stored_at(a, p, 0) == r,
        lookup(a, q, 0, ps) is Some,
        r != Some(found_route(lookup(a, q, 0, ps))),
    ensures
        lookup(b, q, 0, ps) is Some,
{
    lemma_found_is_stored(a, q, 0, ps);
    let p = choose|p: Seq<Seq<char>>| #[trigger] stored_at(a, p, 0) == Some(found_route(lookup(a, q, 0, ps)))
        && reach_match(p, q, 0) && forall|k: int| 0 <= k < 0 ==> p[k] == q[k]
        && ((forall|k: int| 0 <= k < q.len() ==> is_piece(#[trigger] q[k])) ==> forall|k: int| 0 <= k < p.len() ==> is_piece(#[trigger] p[k]));
    assert(stored_at(b, p, 0) == stored_at(a, p, 0));
    if matches_from(p, q, 0) && no_wildcard_from(p, 0) {
        lemma_matching_finds(b, p, q, 0, ps);
    } else {
        lemma_wild_finds(b, p, q, 0, ps);
    }
}

/// After a removal that left the position of the path `sp` empty, a lookup of `sp` finds
/// nothing when no other position stored before (named by a path `q`) reaches `sp`.
pub(crate) proof fn lemma_removed_not_found<R>(a: SegmentNode<R>, b: SegmentNode<R>, path: Seq<char>)
    requires
        wf(b),
        forall|p: Seq<Seq<char>>| #[trigger] stored_at(b, p, 0) == stored_at(a, p, 0) || stored_at(b, p, 0) is None,
        stored_at(b, segments(path), 0) is None,
        forall|q: Seq<char>| #[trigger] stored_at(a, segments(q), 0) is Some && segments(q) != segments(path)
            ==> !reach_match(segments(q), segments(path), 0),
    ensures
        lookup(b, segments(path), 0, Seq::empty()) is None,
{
    let sp = segments(path);
    if lookup(b, sp, 0, Seq::empty()) is Some {
        lemma_segments_are_pieces(path);
        lemma_found_is_stored(b, sp, 0, Seq::empty());
        let p = choose|p: Seq<Seq<char>>| #[trigger] stored_at(b, p, 0) == Some(found_route(lookup(b, sp, 0, Seq::empty())))
            && reach_match(p, sp, 0) && (forall|k: int| 0 <= k < 0 ==> p[k] == sp[k])
            && ((forall|k: int| 0 <= k < sp.len() ==> is_piece(#[trigger] sp[k])) ==> forall|k: int| 0 <= k < p.len() ==> is_piece(#[trigger] p[k]));
        let qq = seq!['/'] + join_with(p, seq!['/']);
        lemma_segments_of_joined(p);
        assert(segments(qq) == p);
        assert(stored_at(a, p, 0) is Some);
        if p == sp {
            assert(false);
        } else {
            assert(stored_at(a, segments(qq), 0) is Some && segments(qq) != sp);
            assert(false);
        }
    }
}

/// Two child lists with the same keys, whose children keyed `segs[i]` store the same at
/// `segs[i + 1..]`, store the same at `segs[i..]`.
proof fn lemma_stored_children_pointwise<R>(a: Seq<(String, SegmentNode<R>)>, b: Seq<(String, SegmentNode<R>)>,
    segs: Seq<Seq<char>>, i: int, k: int)
    requires
        a.len() == b.len(),
        forall|m: int| 0 <= m < a.len() ==> (#[trigger] a[m]).0 == b[m].0,
        forall|m: int| 0 <= m < a.len() && a[m].0@ == segs[i]
            ==> stored_at(#[trigger] a[m].1, segs, i + 1) == stored_at(b[m].1, segs, i + 1),
    ensures
        stored_at_children(a, segs, i, k) == stored_at_children(b, segs, i, k),
    decreases a.len() - k,
{
    if 0 <= k < a.len() {
        assert(a[k].0 == b[k].0);
        lemma_stored_children_pointwise(a, b, segs, i, k + 1);
    }
}

/// With unique keys, the literal step for `segs[i]` goes to the one child with that key.
proof fn lemma_stored_children_keyed<R>(c: Seq<(String, SegmentNode<R>)>, segs: Seq<Seq<char>>, i: int)
    requires
        keys_unique(c),
    ensures
        forall|m: int| 0 <= m < c.len() && c[m].0@ == segs[i]
            ==> stored_at_children(c, segs, i, 0) == stored_at(#[trigger] c[m].1, segs, i + 1),
        (forall|m: int| 0 <= m < c.len() ==> (#[trigger] c[m]).0@ != segs[i]) ==> stored_at_children(c, segs, i, 0) is None,
{
    assert forall|m: int| 0 <= m < c.len() && c[m].0@ == segs[i]
        implies stored_at_children(c, segs, i, 0) == stored_at(#[trigger] c[m].1, segs, i + 1) by {
        assert forall|j: int| 0 <= j < m implies (#[trigger] c[j]).0@ != segs[i] by {
            assert(c[j].0@ != c[m].0@);
        }
        lemma_stored_children_first(c, segs, i, 0, m);
    }
    if forall|m: int| 0 <= m < c.len() ==> (#[trigger] c[m]).0@ != segs[i] {
        lemma_stored_children_none(c, segs, i, 0);
    }
}

/// Replacing child `j` by one with the same key that looks `segs[i + 1..]` up the same way
/// leaves the literal step unchanged.
proof fn lemma_children_update_same<R>(c: Seq<(String, SegmentNode<R>)>, j: int, e: (String, SegmentNode<R>),
    segs: Seq<Seq<char>>, i: int, ps: Seq<(Seq<char>, Seq<char>)>, k: int)
    requires
        0 <= j < c.len(),
        e.0 == c[j].0,
        c[j].0@ != segs[i] || lookup(e.1, segs, i + 1, ps) == lookup(c[j].1, segs, i + 1, ps),
    ensures
        lookup_children(c.update(j, e), segs, i, ps, k) == lookup_children(c, segs, i, ps, k),
    decreases c.len() - k,
{
    if 0 <= k < c.len() {
        lemma_children_update_same(c, j, e, segs, i, ps, k + 1);
        assert(c.update(j, e)[k] == if k == j { e } else { c[k] });
    }
}

/// Appending a child that does not find `segs[i..]` leaves the literal step unchanged.
proof fn lemma_children_push_same<R>(c: Seq<(String, SegmentNode<R>)>, e: (String, SegmentNode<R>),
    segs: Seq<Seq<char>>, i: int, ps: Seq<(Seq<char>, Seq<char>)>, k: int)
    requires
        0 <= k,
        e.0@ != segs[i] || lookup(e.1, segs, i + 1, ps) is None,
    ensures
        lookup_children(c.push(e), segs, i, ps, k) == lookup_children(c, segs, i, ps, k),
    decreases c.len() + 1 - k,
{
    if k < c.len() {
        lemma_children_push_same(c, e, segs, i, ps, k + 1);
        assert(c.push(e)[k] == c[k]);
    } else if k == c.len() {
        assert(c.push(e)[k] == e);
        assert(lookup_children(c.push(e), segs, i, ps, k + 1) is None);
    }
}

/// When the literal step finds nothing, no child keyed `segs[i]` finds the rest.
proof fn lemma_children_none_each<R>(c: Seq<(String, SegmentNode<R>)>, segs: Seq<Seq<char>>, i: int,
    ps: Seq<(Seq<char>, Seq<char>)>, k: int, m: int)
    requires
        lookup_children(c, segs, i, ps, k) is None,
        0 <= k <= m < c.len(),
        c[m].0@ == segs[i],
    ensures
        lookup(c[m].1, segs, i + 1, ps) is None,
    decreases m - k,
{
    if k < m {
        lemma_children_none_each(c, segs, i, ps, k + 1, m);
    }
}

/// A bare node finds nothing and has no parameter node to disagree with.
pub(crate) proof fn lemma_bare_lookup<R>(node: SegmentNode<R>, segs: Seq<Seq<char>>, i: int, ps: Seq<(Seq<char>, Seq<char>)>)
    requires
        node.is_bare(),
    ensures
        lookup(node, segs, i, ps) is None,
        names_fit(node, segs, i),
{
    assert(lookup_children(node.children@, segs, i, ps, 0) is None);
    assert(names_fit_children(node.children@, segs, i, 0));
}

/// When child `j` is the first from `k` on keyed by `segs[i]`, the names along the literal
/// step are those below it.
proof fn lemma_fit_children_first<R>(c: Seq<(String, SegmentNode<R>)>, segs: Seq<Seq<char>>, i: int, k: int, j: int)
    requires
        0 <= k <= j < c.len(),
        forall|m: int| k <= m < j ==> (#[trigger] c[m]).0@ != segs[i],
        c[j].0@ == segs[i],
    ensures
        names_fit_children(c, segs, i, k) == names_fit(c[j].1, segs, i + 1),
    decreases j - k,
{
    if k < j {
        assert(c[k].0@ != segs[i]);
        lemma_fit_children_first(c, segs, i, k + 1, j);
    }
}

proof fn lemma_wf_unfold<R>(node: SegmentNode<R>)
    requires
        wf(node),
    ensures
        wf_children(node.children@, 0),
        keys_unique(node.children@),
        node.param_child matches Some(pc) ==> pc.node_type is Parameter && wf(*pc)
            && (param_part(pc.node_type) matches Some(part) && is_piece(part)),
        node.wildcard_child matches Some(wc) ==> wc.node_type is Wildcard && wf(*wc),
{
}

pub(crate) proof fn lemma_wf_bare<R>(node: SegmentNode<R>)
    requires
        node.is_bare(),
    ensures
        wf(node),
{
    assert(wf_children(node.children@, 0));
}

proof fn lemma_wf_children_at<R>(children: Seq<(String, SegmentNode<R>)>, k: int, i: int)
    requires
        wf_children(children, k),
        0 <= k <= i < children.len(),
    ensures
        is_static_segment(children[i].0@),
        is_piece(children[i].0@),
        children[i].1.node_type == RadixNodeType::Static(children[i].0),
        wf(children[i].1),
    decreases i - k,
{
    if k < i {
        lemma_wf_children_at(children, k + 1, i);
    }
}

proof fn lemma_wf_children_update<R>(children: Seq<(String, SegmentNode<R>)>, k: int, i: int,
    e: (String, SegmentNode<R>))
    requires
        wf_children(children, k),
        0 <= k,
        0 <= i < children.len(),
        e.0 == children[i].0,
        e.1.node_type == children[i].1.node_type,
        wf(e.1),
    ensures
        wf_children(children.update(i, e), k),
    decreases children.len() - k,
{
    if k < children.len() {
        lemma_wf_children_update(children, k + 1, i, e);
        if k == i {
            lemma_wf_children_at(children, k, i);
        }
    }
}

proof fn lemma_wf_children_push<R>(children: Seq<(String, SegmentNode<R>)>, k: int, e: (String, SegmentNode<R>))
    requires
        wf_children(children, k),
        0 <= k <= children.len(),
        is_static_segment(e.0@),
        is_piece(e.0@),
        e.1.node_type == RadixNodeType::Static(e.0),
        wf(e.1),
    ensures
        wf_children(children.push(e), k),
    decreases children.len() - k,
{
    if k < children.len() {
        lemma_wf_children_push(children, k + 1, e);
        assert(children.push(e)[k] == children[k]);
    } else {
        assert(children.push(e)[k] == e);
        assert(wf_children(children.push(e), k + 1));
    }
}

/// When child `j` is the first from `k` on keyed by `segs[i]` and the rest is found below
/// it, the literal step finds that.
proof fn lemma_children_first<R>(children: Seq<(String, SegmentNode<R>)>, segs: Seq<Seq<char>>, i: int,
    ps: Seq<(Seq<char>, Seq<char>)>, k: int, j: int)
    requires
        0 <= k <= j < children.len(),
        forall|m: int| k <= m < j ==> (#[trigger] children[m]).0@ != segs[i],
        children[j].0@ == segs[i],
        lookup(children[j].1, segs, i + 1, ps) is Some,
    ensures
        lookup_children(children, segs, i, ps, k) == lookup(children[j].1, segs, i + 1, ps),
    decreases j - k,
{
    if k < j {
        assert(children[k].0@ != segs[i]);
        lemma_children_first(children, segs, i, ps, k + 1, j);
    }
}

/// Literal children never take a segment that is not a literal.
proof fn lemma_children_none_nonstatic<R>(children: Seq<(String, SegmentNode<R>)>, segs: Seq<Seq<char>>, i: int,
    ps: Seq<(Seq<char>, Seq<char>)>, k: int)
    requires
        wf_children(children, k),
        0 <= k,
        0 <= i < segs.len(),
        !is_static_segment(segs[i]),
    ensures
        lookup_children(children, segs, i, ps, k) is None,
    decreases children.len() - k,
{
    if k < children.len() {
        lemma_children_none_nonstatic(children, segs, i, ps, k + 1);
    }
}

/// When child `j` is the first from `k` on keyed by `segs[i]` and a removal below it finds a
/// route, the literal step of a removal finds that route.
proof fn lemma_removable_children_first<R>(children: Seq<(String, SegmentNode<R>)>, segs: Seq<Seq<char>>, i: int,
    k: int, j: int)
    requires
        0 <= k <= j < children.len(),
        forall|m: int| k <= m < j ==> (#[trigger] children[m]).0@ != segs[i],
        children[j].0@ == segs[i],
        removable(children[j].1, segs, i + 1) is Some,
    ensures
        removable_children(children, segs, i, k) == removable(children[j].1, segs, i + 1),
    decreases j - k,
{
    if k < j {
        assert(children[k].0@ != segs[i]);
        lemma_removable_children_first(children, segs, i, k + 1, j);
    }
}

/// The literal step of a removal never takes a segment that is not a literal.
proof fn lemma_removable_children_nonstatic<R>(children: Seq<(String, SegmentNode<R>)>, segs: Seq<Seq<char>>, i: int,
    k: int)
    requires
        wf_children(children, k),
        0 <= k,
        0 <= i < segs.len(),
        !is_static_segment(segs[i]),
    ensures
        removable_children(children, segs, i, k) is None,
    decreases children.len() - k,
{
    if k < children.len() {
        lemma_removable_children_nonstatic(children, segs, i, k + 1);
    }
}

proof fn lemma_removable_children_none<R>(children: Seq<(String, SegmentNode<R>)>, segs: Seq<Seq<char>>, i: int, k: int)
    requires
        0 <= k,
        forall|m: int| k <= m < children.len() ==> (#[trigger] children[m]).0@ != segs[i]
            || removable(children[m].1, segs, i + 1) is None,
    ensures
        removable_children(children, segs, i, k) is None,
    decreases children.len() - k,
{
    if k < children.len() {
        lemma_removable_children_none(children, segs, i, k + 1);
    }
}

pub(crate) proof fn lemma_bare_total<R>(node: SegmentNode<R>)
    requires
        node.is_bare(),
    ensures
        route_total(node) == 0,
{
    assert(children_total(node.children@, 0) == 0);
}

proof fn lemma_children_total_update<R>(children: Seq<(String, SegmentNode<R>)>, n: int, k: int, e: (String, SegmentNode<R>))
    requires
        0 <= k < n <= children.len(),
    ensures
        children_total(children.update(k, e), n) == children_total(children, n) - route_total(children[k].1) + route_total(e.1),
    decreases n,
{
    let u = children.update(k, e);
    if n - 1 > k {
        lemma_children_total_update(children, n - 1, k, e);
        assert(u[n - 1] == children[n - 1]);
    } else {
        lemma_children_total_same(children, u, k);
    }
}

proof fn lemma_children_total_push<R>(children: Seq<(String, SegmentNode<R>)>, e: (String, SegmentNode<R>))
    ensures
        children_total(children.push(e), children.len() as int + 1) == children_total(children, children.len() as int)
            + route_total(e.1),
{
    let p = children.push(e);
    lemma_children_total_same(children, p, children.len() as int);
    assert(p[children.len() as int] == e);
}

/// A bare node stores nothing anywhere below it.
pub(crate) proof fn lemma_bare_stored<R>(node: SegmentNode<R>, segs: Seq<Seq<char>>, i: int)
    requires
        node.is_bare(),
    ensures
        stored_at(node, segs, i) is None,
{
    assert(stored_at_children(node.children@, segs, i, 0) is None);
}

/// When child `j` is the first from `k` on keyed by `segs[i]`, the position is below it.
proof fn lemma_stored_children_first<R>(children: Seq<(String, SegmentNode<R>)>, segs: Seq<Seq<char>>, i: int,
    k: int, j: int)
    requires
        0 <= k <= j < children.len(),
        forall|m: int| k <= m < j ==> (#[trigger] children[m]).0@ != segs[i],
        children[j].0@ == segs[i],
    ensures
        stored_at_children(children, segs, i, k) == stored_at(children[j].1, segs, i + 1),
    decreases j - k,
{
    if k < j {
        assert(children[k].0@ != segs[i]);
        lemma_stored_children_first(children, segs, i, k + 1, j);
    }
}

/// With no literal child from `k` on keyed by `segs[i]`, nothing is stored there.
proof fn lemma_stored_children_none<R>(children: Seq<(String, SegmentNode<R>)>, segs: Seq<Seq<char>>, i: int, k: int)
    requires
        0 <= k,
        forall|m: int| k <= m < children.len() ==> (#[trigger] children[m]).0@ != segs[i],
    ensures
        stored_at_children(children, segs, i, k) is None,
    decreases children.len() - k,
{
    if k < children.len() {
        assert(children[k].0@ != segs[i]);
        lemma_stored_children_none(children, segs, i, k + 1);
    }
}

proof fn lemma_children_total_same<R>(a: Seq<(String, SegmentNode<R>)>, b: Seq<(String, SegmentNode<R>)>, n: int)
    requires
        0 <= n <= a.len(),
        n <= b.len(),
        forall|m: int| 0 <= m < n ==> a[m] == b[m],
    ensures
        children_total(a, n) == children_total(b, n),
    decreases n,
{
    if n > 0 {
        lemma_children_total_same(a, b, n - 1);
    }
}

proof fn lemma_children_total_remove<R>(children: Seq<(String, SegmentNode<R>)>, k: int)
    requires
        0 <= k < children.len(),
    ensures
        children_total(children.remove(k), children.len() - 1) == children_total(children, children.len() as int) - route_total(children[k].1),
    decreases children.len() - k,
{
    let r = children.remove(k);
    if k == children.len() - 1 {
        lemma_children_total_same(children, r, k);
    } else {
        // Removing before the last element: peel the last one off both sides.
        let last = children.len() - 1;
        let shorter = children.subrange(0, last);
        assert(shorter.remove(k) =~= r.subrange(0, last - 1));
        lemma_children_total_remove(shorter, k);
        lemma_children_total_same(children, shorter, last);
        lemma_children_total_same(r, r.subrange(0, last - 1), last - 1);
        lemma_children_total_same(r.subrange(0, last - 1), shorter.remove(k), last - 1);
        assert(r[last - 1] == children[last]);
    }
}

proof fn lemma_wf_children_remove<R>(children: Seq<(String, SegmentNode<R>)>, k: int, i: int)
    requires
        wf_children(children, k),
        0 <= k,
        0 <= i < children.len(),
    ensures
        k <= i ==> wf_children(children.remove(i), k),
        k > i ==> wf_children(children.remove(i), k - 1),
    decreases children.len() - k,
{
    if k < children.len() {
        lemma_wf_children_remove(children, k + 1, i);
        if k < i {
            assert(children.remove(i)[k] == children[k]);
        } else if k > i {
            assert(children.remove(i)[k - 1] == children[k]);
        } else {
            if i + 1 < children.len() {
                assert(children.remove(i)[i] == children[i + 1]);
            }
        }
    }
}

proof fn lemma_children_total_mono<R>(children: Seq<(String, SegmentNode<R>)>, k: int, n: int)
    requires
        0 <= k <= n <= children.len(),
    ensures
        children_total(children, k) <= children_total(children, n),
    decreases n - k,
{
    if k < n {
        lemma_children_total_mono(children, k, n - 1);
    }
}

proof fn lemma_children_nodes_mono<R>(children: Seq<(String, SegmentNode<R>)>, k: int, n: int)
    requires
        0 <= k <= n <= children.len(),
    ensures
        children_nodes(children, k) <= children_nodes(children, n),
    decreases n - k,
{
    if k < n {
        lemma_children_nodes_mono(children, k, n - 1);
    }
}

/// `prefix/part`, or `part` alone when `prefix` is empty.
fn sub_path(prefix: &str, part: &str) -> (r: String)
    ensures
        r@ == child_path(prefix@, part@),
{
    if prefix.unicode_len() == 0 {
        owned(part)
    } else {
        let r = String::from_str(prefix).concat("/").concat(part);
        proof {
            reveal_strlit("/");
            assert(r@ =~= prefix@ + seq!['/'] + part@);
        }
        r
    }
}

/// What a bare node looks up, removes, counts and lists: nothing, nothing, one node, no
/// paths.
pub(crate) proof fn lemma_bare_facts<R>(node: SegmentNode<R>)
    requires
        node.is_bare(),
    ensures
        forall|segs: Seq<Seq<char>>, ps: Seq<(Seq<char>, Seq<char>)>| #[trigger] lookup(node, segs, 0, ps) is None,
        forall|segs: Seq<Seq<char>>| #[trigger] removable(node, segs, 0) is None,
        node_total(node) == 1,
        forall|prefix: Seq<char>| #[trigger] paths_of(node, prefix) == Seq::<Seq<char>>::empty(),
{
    assert forall|segs: Seq<Seq<char>>, ps: Seq<(Seq<char>, Seq<char>)>| #[trigger] lookup(node, segs, 0, ps) is None by {
        assert(lookup_children(node.children@, segs, 0, ps, 0) is None);
    }
    assert forall|segs: Seq<Seq<char>>| #[trigger] removable(node, segs, 0) is None by {
        assert(removable_children(node.children@, segs, 0, 0) is None);
    }
    assert(children_nodes(node.children@, 0) == 0);
    assert forall|prefix: Seq<char>| #[trigger] paths_of(node, prefix) == Seq::<Seq<char>>::empty() by {
        assert(paths_children(node.children@, prefix, 0) == Seq::<Seq<char>>::empty());
        assert(paths_of(node, prefix) =~= Seq::<Seq<char>>::empty());
    }
}

/// The position of the first child keyed `key`.
fn first_key<R>(children: &Vec<(String, SegmentNode<R>)>, key: &str) -> (r: Option<usize>)
    ensures
        match r {
            Some(i) => i < children@.len() && children@[i as int].0@ == key@
                && forall|m: int| 0 <= m < i ==> (#[trigger] children@[m]).0@ != key@,
            None => forall|m: int| 0 <= m < children@.len() ==> (#[trigger] children@[m]).0@ != key@,
        },
{
    let mut i: usize = 0;
    while i < children.len()
        invariant
            i <= children@.len(),
            forall|m: int| 0 <= m < i ==> (#[trigger] children@[m]).0@ != key@,
        decreases children@.len() - i,
    {
        if str_eq(children[i].0.as_str(), key) {
            return Some(i);
        }
        i = i + 1;
    }
    None
}

/// A copy of the captured pairs.
fn clone_pairs(v: &Vec<(String, String)>) -> (r: Vec<(String, String)>)
    ensures
        pairs_view(r@) == pairs_view(v@),
{
    let mut r: Vec<(String, String)> = Vec::new();
    let mut i: usize = 0;
    while i < v.len()
        invariant
            i <= v@.len(),
            r@.len() == i,
            pairs_view(r@) == pairs_view(v@.subrange(0, i as int)),
        decreases v@.len() - i,
    {
        let ghost before = r@;
        let a = v[i].0.clone();
        let b = v[i].1.clone();
        r.push((a, b));
        proof {
            let sub = v@.subrange(0, i as int);
            let sub1 = v@.subrange(0, i + 1);
            assert forall|j: int| 0 <= j < i + 1 implies #[trigger] pairs_view(r@)[j] == pairs_view(sub1)[j] by {
                if j < i {
                    assert(r@[j] == before[j]);
                    assert(pairs_view(before)[j] == pairs_view(sub)[j]);
                    assert(sub[j] == sub1[j]);
                }
            }
            assert(pairs_view(r@) =~= pairs_view(sub1));
        }
        i = i + 1;
    }
    assert(v@.subrange(0, v@.len() as int) =~= v@);
    r
}

/// The segments `segs[from..]` joined with `/`.
fn join_rest(segs: &Vec<String>, from: usize) -> (r: String)
    requires
        from <= segs@.len(),
    ensures
        r@ == rest_text(strings_view(segs@), from as int),
{
    let ghost sv = strings_view(segs@);
    let mut r = String::new();
    let mut i: usize = from;
    while i < segs.len()
        invariant
            sv == strings_view(segs@),
            from <= i <= segs@.len(),
            r@ == join_with(sv.subrange(from as int, i as int), seq!['/']),
        decreases segs@.len() - i,
    {
        let ghost p = sv.subrange(from as int, i + 1);
        assert(p.drop_last() =~= sv.subrange(from as int, i as int));
        assert(p.last() == segs@[i as int]@);
        if i > from {
            crate::text::push_char(&mut r, '/');
        } else {
            assert(r@ =~= Seq::<char>::empty());
        }
        r.append(segs[i].as_str());
        proof {
            if i > from {
                assert(r@ =~= join_with(p.drop_last(), seq!['/']) + seq!['/'] + p.last());
            } else {
                assert(p.len() == 1);
                assert(r@ =~= p[0]);
            }
        }
        i = i + 1;
    }
    r
}

impl<R> SegmentNode<R> {
    /// The node's kind.
    pub closed spec fn kind(&self) -> RadixNodeType {
        self.node_type
    }

    /// The node has no children and no route.
    pub closed spec fn is_bare(&self) -> bool {
        &&& self.children@.len() == 0
        &&& self.param_child is None
        &&& self.wildcard_child is None
        &&& self.route is None
    }

    /// A node of kind `node_type` with no children and no route.
    pub fn new(node_type: RadixNodeType) -> (r: Self)
        ensures
            r.kind() == node_type,
            r.is_bare(),
    {
        SegmentNode { node_type, children: Vec::new(), param_child: None, wildcard_child: None, route: None }
    }

    /// Looks `segs[idx..]` up below this node, with `params` captured so far.
    pub(crate) fn find_segments(&self, segs: &Vec<String>, idx: usize, params: Vec<(String, String)>)
        -> (r: Option<(&R, Vec<(String, String)>)>)
        requires
            idx <= segs@.len(),
        ensures
            match lookup(*self, strings_view(segs@), idx as int, pairs_view(params@)) {
                Some((route, ps)) => r matches Some((x, v)) && *x == route && pairs_view(v@) == ps,
                None => r is None,
            },
        decreases self,
    {
        let ghost sv = strings_view(segs@);
        let ghost pv = pairs_view(params@);
        if idx >= segs.len() {
            return match &self.route {
                Some(route) => Some((route, params)),
                None => None,
            };
        }
        let segment = segs[idx].as_str();
        let mut k: usize = 0;
        while k < self.children.len()
            invariant
                sv == strings_view(segs@),
                pv == pairs_view(params@),
                idx < segs.len(),
                segment@ == sv[idx as int],
                k <= self.children@.len(),
                lookup_children(self.children@, sv, idx as int, pv, 0) == lookup_children(self.children@, sv, idx as int, pv, k as int),
            decreases self.children@.len() - k,
        {
            if str_eq(self.children[k].0.as_str(), segment) {
                let res = self.children[k].1.find_segments(segs, idx + 1, clone_pairs(&params));
                if res.is_some() {
                    return res;
                }
            }
            k = k + 1;
        }
        if let Some(pc) = &self.param_child {
            if let RadixNodeType::Parameter(name) = &pc.node_type {
                let mut np = clone_pairs(&params);
                let ghost before = np@;
                np.push((name.clone(), owned(segment)));
                assert(pairs_view(np@) =~= pv.push((name_of(pc.node_type), sv[idx as int])));
                let res = pc.find_segments(segs, idx + 1, np);
                if res.is_some() {
                    return res;
                }
            }
        }
        if let Some(wc) = &self.wildcard_child {
            let rest = join_rest(segs, idx);
            let mut np = params;
            np.push((String::from_str("*"), rest));
            proof {
                reveal_strlit("*");
                assert("*"@ =~= seq!['*']);
                assert(pairs_view(np@) =~= pv.push((seq!['*'], rest_text(sv, idx as int))));
            }
            if let Some(route) = &wc.route {
                return Some((route, np));
            }
            return None;
        }
        None
    }

    /// Stores `route` at the node for `segs[idx..]`, creating the missing nodes: a literal
    /// child per literal segment, the parameter child for `{name}`, the wildcard child for `*`.
    pub(crate) fn insert_segments(&mut self, segs: &Vec<String>, idx: usize, route: R)
        requires
            wf(*old(self)),
            idx <= segs@.len(),
            forall|k: int| idx <= k < segs@.len() ==> is_piece(#[trigger] segs@[k]@),
        ensures
            wf(*final(self)),
            final(self).kind() == old(self).kind(),
            no_wildcard_from(strings_view(segs@), idx as int) ==> forall|ps: Seq<(Seq<char>, Seq<char>)>|
                #[trigger] lookup(*final(self), strings_view(segs@), idx as int, ps) matches Some((x, _)) && x == route,
            all_static_from(strings_view(segs@), idx as int) ==> forall|ps: Seq<(Seq<char>, Seq<char>)>|
                #[trigger] lookup(*final(self), strings_view(segs@), idx as int, ps) == Some((route, ps)),
            no_wildcard_from(strings_view(segs@), idx as int) ==> removable(*final(self), strings_view(segs@), idx as int)
                == Some(route),
            route_total(*final(self)) == route_total(*old(self))
                + if stored_at(*old(self), strings_view(segs@), idx as int) is Some { 0int } else { 1int },
            stored_at(*final(self), strings_view(segs@), idx as int) == Some(route),
            forall|qs: Seq<Seq<char>>| idx <= qs.len() ==> #[trigger] stored_at(*final(self), qs, idx as int) == (
                if same_position(strings_view(segs@), qs, idx as int) { Some(route) } else { stored_at(*old(self), qs, idx as int) }),
            no_wildcard_from(strings_view(segs@), idx as int) ==> forall|qs: Seq<Seq<char>>, ps: Seq<(Seq<char>, Seq<char>)>|
                idx <= qs.len() && !matches_from(strings_view(segs@), qs, idx as int)
                ==> #[trigger] lookup(*final(self), qs, idx as int, ps) == lookup(*old(self), qs, idx as int, ps),
            no_wildcard_from(strings_view(segs@), idx as int) && names_fit(*old(self), strings_view(segs@), idx as int)
                ==> forall|qs: Seq<Seq<char>>, ps: Seq<(Seq<char>, Seq<char>)>|
                matches_from(strings_view(segs@), qs, idx as int) && lookup(*old(self), qs, idx as int, ps) is None
                ==> #[trigger] lookup(*final(self), qs, idx as int, ps)
                    == Some((route, ps + captures_from(strings_view(segs@), qs, idx as int))),
        decreases segs@.len() - idx,
    {
        let ghost sv = strings_view(segs@);
        let ghost old_self = *self;
        if idx >= segs.len() {
            self.route = Some(route);
            proof {
                assert forall|qs: Seq<Seq<char>>| idx <= qs.len() implies #[trigger] stored_at(*self, qs, idx as int) == (
                    if same_position(sv, qs, idx as int) { Some(route) } else { stored_at(old_self, qs, idx as int) }) by {
                    if qs.len() > idx {
                        assert(!same_position(sv, qs, idx as int));
                    }
                }
                assert forall|qs: Seq<Seq<char>>, ps: Seq<(Seq<char>, Seq<char>)>|
                    idx <= qs.len() && !matches_from(sv, qs, idx as int)
                    implies #[trigger] lookup(*self, qs, idx as int, ps) == lookup(old_self, qs, idx as int, ps) by {
                    assert(qs.len() != sv.len());
                }
                assert forall|qs: Seq<Seq<char>>, ps: Seq<(Seq<char>, Seq<char>)>|
                    matches_from(sv, qs, idx as int) && lookup(old_self, qs, idx as int, ps) is None
                    implies #[trigger] lookup(*self, qs, idx as int, ps)
                        == Some((route, ps + captures_from(sv, qs, idx as int))) by {
                    assert(ps + captures_from(sv, qs, idx as int) =~= ps);
                }
            }
            return;
        }
        let ghost seg = sv[idx as int];
        let node_type = RadixNodeType::from_segment(segs[idx].as_str());
        proof {
            lemma_wf_unfold(*self);
        }
        match node_type {
            RadixNodeType::Static(key) => {
                let pos = first_key(&self.children, key.as_str());
                match pos {
                    Some(i) => {
                        let ghost before = self.children@;
                        proof { lemma_wf_children_at(before, 0, i as int); }
                        self.children[i].1.insert_segments(segs, idx + 1, route);
                        proof {
                            let after = self.children@;
                            assert(after == before.update(i as int, after[i as int]));
                            lemma_wf_children_update(before, 0, i as int, after[i as int]);
                            assert forall|ps: Seq<(Seq<char>, Seq<char>)>| no_wildcard_from(sv, idx as int)
                                implies #[trigger] lookup(*self, sv, idx as int, ps) matches Some((x, _)) && x == route by {
                                assert(no_wildcard_from(sv, idx + 1));
                                lemma_children_first(after, sv, idx as int, ps, 0, i as int);
                            }
                            assert forall|ps: Seq<(Seq<char>, Seq<char>)>| all_static_from(sv, idx as int)
                                implies #[trigger] lookup(*self, sv, idx as int, ps) == Some((route, ps)) by {
                                assert(all_static_from(sv, idx + 1));
                                assert(no_wildcard_from(sv, idx + 1));
                                lemma_children_first(after, sv, idx as int, ps, 0, i as int);
                            }
                            if no_wildcard_from(sv, idx as int) {
                                assert(no_wildcard_from(sv, idx + 1));
                                lemma_removable_children_first(after, sv, idx as int, 0, i as int);
                            }
                            assert(is_static_segment(seg));
                            lemma_stored_children_first(before, sv, idx as int, 0, i as int);
                            lemma_stored_children_first(after, sv, idx as int, 0, i as int);
                            lemma_children_total_update(before, before.len() as int, i as int, after[i as int]);
                            assert forall|qs: Seq<Seq<char>>| idx <= qs.len() implies #[trigger] stored_at(*self, qs, idx as int) == (
                                if same_position(sv, qs, idx as int) { Some(route) } else { stored_at(old_self, qs, idx as int) }) by {
                                if qs.len() > idx {
                                    lemma_same_position_step(sv, qs, idx as int);
                                    let qk = qs[idx as int];
                                    if !is_param_segment(qk) && !is_wildcard_segment(qk) {
                                        if qk == seg {
                                            assert(stored_at(after[i as int].1, qs, idx + 1) == (
                                                if same_position(sv, qs, idx + 1) { Some(route) } else { stored_at(before[i as int].1, qs, idx + 1) }));
                                            assert forall|m: int| 0 <= m < i implies (#[trigger] after[m]).0@ != qs[idx as int] by {
                                                assert(after[m] == before[m]);
                                            }
                                            lemma_stored_children_first(after, qs, idx as int, 0, i as int);
                                            lemma_stored_children_first(before, qs, idx as int, 0, i as int);
                                        } else {
                                            lemma_stored_children_update_same(before, i as int, after[i as int], qs, idx as int, 0);
                                        }
                                    }
                                } else {
                                    assert(!same_position(sv, qs, idx as int));
                                }
                            }
                            assert forall|qs: Seq<Seq<char>>, ps: Seq<(Seq<char>, Seq<char>)>|
                                no_wildcard_from(sv, idx as int) && idx <= qs.len() && !matches_from(sv, qs, idx as int)
                                implies #[trigger] lookup(*self, qs, idx as int, ps) == lookup(old_self, qs, idx as int, ps) by {
                                if idx < qs.len() {
                                    if qs[idx as int] == seg {
                                        lemma_matches_step(sv, qs, idx as int);
                                        assert(no_wildcard_from(sv, idx + 1));
                                        assert(lookup(after[i as int].1, qs, idx + 1, ps) == lookup(before[i as int].1, qs, idx + 1, ps));
                                    }
                                    lemma_children_update_same(before, i as int, after[i as int], qs, idx as int, ps, 0);
                                }
                            }
                            if names_fit(old_self, sv, idx as int) {
                                lemma_fit_children_first(before, sv, idx as int, 0, i as int);
                            }
                            assert forall|qs: Seq<Seq<char>>, ps: Seq<(Seq<char>, Seq<char>)>|
                                no_wildcard_from(sv, idx as int) && names_fit(old_self, sv, idx as int)
                                && matches_from(sv, qs, idx as int) && lookup(old_self, qs, idx as int, ps) is None
                                implies #[trigger] lookup(*self, qs, idx as int, ps)
                                    == Some((route, ps + captures_from(sv, qs, idx as int))) by {
                                lemma_matches_step(sv, qs, idx as int);
                                assert(qs[idx as int] == seg);
                                assert(lookup_children(before, qs, idx as int, ps, 0) is None);
                                lemma_children_none_each(before, qs, idx as int, ps, 0, i as int);
                                assert(no_wildcard_from(sv, idx + 1));
                                assert(lookup(after[i as int].1, qs, idx + 1, ps)
                                    == Some((route, ps + captures_from(sv, qs, idx + 1))));
                                assert forall|m: int| 0 <= m < i implies (#[trigger] after[m]).0@ != qs[idx as int] by {
                                    assert(after[m] == before[m]);
                                }
                                lemma_children_first(after, qs, idx as int, ps, 0, i as int);
                            }
                        }
                    },
                    None => {
                        let mut fresh = SegmentNode::new(RadixNodeType::Static(key.clone()));
                        proof {
                            lemma_wf_bare(fresh);
                            lemma_bare_total(fresh);
                            lemma_bare_stored(fresh, sv, idx + 1);
                        }
                        let ghost fresh0 = fresh;
                        fresh.insert_segments(segs, idx + 1, route);
                        let ghost before = self.children@;
                        self.children.push((key, fresh));
                        proof {
                            let after = self.children@;
                            let j = before.len() as int;
                            assert(after == before.push(after[j]));
                            lemma_wf_children_push(before, 0, after[j]);
                            assert forall|m: int| 0 <= m < j implies #[trigger] after[m].0@ != seg by {
                                assert(after[m] == before[m]);
                            }
                            assert forall|ps: Seq<(Seq<char>, Seq<char>)>| no_wildcard_from(sv, idx as int)
                                implies #[trigger] lookup(*self, sv, idx as int, ps) matches Some((x, _)) && x == route by {
                                assert(no_wildcard_from(sv, idx + 1));
                                lemma_children_first(after, sv, idx as int, ps, 0, j);
                            }
                            assert forall|ps: Seq<(Seq<char>, Seq<char>)>| all_static_from(sv, idx as int)
                                implies #[trigger] lookup(*self, sv, idx as int, ps) == Some((route, ps)) by {
                                assert(all_static_from(sv, idx + 1));
                                assert(no_wildcard_from(sv, idx + 1));
                                lemma_children_first(after, sv, idx as int, ps, 0, j);
                            }
                            if no_wildcard_from(sv, idx as int) {
                                assert(no_wildcard_from(sv, idx + 1));
                                lemma_removable_children_first(after, sv, idx as int, 0, j);
                            }
                            assert(is_static_segment(seg));
                            lemma_stored_children_none(before, sv, idx as int, 0);
                            lemma_stored_children_first(after, sv, idx as int, 0, j);
                            lemma_children_total_push(before, after[j]);
                            assert forall|qs: Seq<Seq<char>>| idx <= qs.len() implies #[trigger] stored_at(*self, qs, idx as int) == (
                                if same_position(sv, qs, idx as int) { Some(route) } else { stored_at(old_self, qs, idx as int) }) by {
                                if qs.len() > idx {
                                    lemma_same_position_step(sv, qs, idx as int);
                                    let qk = qs[idx as int];
                                    if !is_param_segment(qk) && !is_wildcard_segment(qk) {
                                        if qk == seg {
                                            lemma_bare_stored(fresh0, qs, idx + 1);
                                            assert(stored_at(after[j].1, qs, idx + 1) == (
                                                if same_position(sv, qs, idx + 1) { Some(route) } else { stored_at(fresh0, qs, idx + 1) }));
                                            lemma_stored_children_first(after, qs, idx as int, 0, j);
                                            lemma_stored_children_none(before, qs, idx as int, 0);
                                        } else {
                                            lemma_stored_children_push_same(before, after[j], qs, idx as int, 0);
                                        }
                                    }
                                } else {
                                    assert(!same_position(sv, qs, idx as int));
                                }
                            }
                            assert forall|qs: Seq<Seq<char>>, ps: Seq<(Seq<char>, Seq<char>)>|
                                no_wildcard_from(sv, idx as int) && idx <= qs.len() && !matches_from(sv, qs, idx as int)
                                implies #[trigger] lookup(*self, qs, idx as int, ps) == lookup(old_self, qs, idx as int, ps) by {
                                if idx < qs.len() {
                                    if qs[idx as int] == seg {
                                        lemma_matches_step(sv, qs, idx as int);
                                        assert(no_wildcard_from(sv, idx + 1));
                                        lemma_bare_lookup(fresh0, qs, idx + 1, ps);
                                        assert(lookup(after[j].1, qs, idx + 1, ps) == lookup(fresh0, qs, idx + 1, ps));
                                    }
                                    lemma_children_push_same(before, after[j], qs, idx as int, ps, 0);
                                }
                            }
                            assert forall|qs: Seq<Seq<char>>, ps: Seq<(Seq<char>, Seq<char>)>|
                                no_wildcard_from(sv, idx as int) && names_fit(old_self, sv, idx as int)
                                && matches_from(sv, qs, idx as int) && lookup(old_self, qs, idx as int, ps) is None
                                implies #[trigger] lookup(*self, qs, idx as int, ps)
                                    == Some((route, ps + captures_from(sv, qs, idx as int))) by {
                                lemma_matches_step(sv, qs, idx as int);
                                assert(qs[idx as int] == seg);
                                assert(no_wildcard_from(sv, idx + 1));
                                lemma_bare_lookup(fresh0, qs, idx + 1, ps);
                                lemma_bare_lookup(fresh0, sv, idx + 1, ps);
                                assert(lookup(after[j].1, qs, idx + 1, ps)
                                    == Some((route, ps + captures_from(sv, qs, idx + 1))));
                                lemma_children_first(after, qs, idx as int, ps, 0, j);
                            }
                        }
                    },
                }
            },
            RadixNodeType::Parameter(name) => {
                let mut child = match self.param_child.take() {
                    Some(c) => c,
                    None => {
                        let fresh = Box::new(SegmentNode::new(RadixNodeType::Parameter(name)));
                        proof {
                            lemma_wf_bare(*fresh);
                            lemma_bare_total(*fresh);
                            lemma_bare_stored(*fresh, sv, idx + 1);
                        }
                        fresh
                    },
                };
                let ghost child_before = *child;
                child.insert_segments(segs, idx + 1, route);
                self.param_child = Some(child);
                proof {
                    assert(is_param_segment(seg));
                    assert(old_self.param_child is None ==> route_total(child_before) == 0
                        && stored_at(child_before, sv, idx + 1) is None);
                    assert(old_self.param_child matches Some(pc) ==> *pc == child_before);
                    assert forall|ps: Seq<(Seq<char>, Seq<char>)>| no_wildcard_from(sv, idx as int)
                        implies #[trigger] lookup(*self, sv, idx as int, ps) matches Some((x, _)) && x == route by {
                        assert(no_wildcard_from(sv, idx + 1));
                        lemma_children_none_nonstatic(self.children@, sv, idx as int, ps, 0);
                        let p2 = ps.push((name_of(child.node_type), sv[idx as int]));
                        assert(lookup(*child, sv, idx + 1, p2) matches Some((x, _)) && x == route);
                    }
                    assert(!all_static_from(sv, idx as int));
                    if no_wildcard_from(sv, idx as int) {
                        assert(no_wildcard_from(sv, idx + 1));
                        lemma_removable_children_nonstatic(self.children@, sv, idx as int, 0);
                    }
                    assert(old_self.param_child is None ==> child_before.is_bare()
                        && name_of(child_before.node_type) == param_name_of(seg));
                    assert forall|qs: Seq<Seq<char>>| idx <= qs.len() implies #[trigger] stored_at(*self, qs, idx as int) == (
                        if same_position(sv, qs, idx as int) { Some(route) } else { stored_at(old_self, qs, idx as int) }) by {
                        if qs.len() > idx {
                            lemma_same_position_step(sv, qs, idx as int);
                            if is_param_segment(qs[idx as int]) {
                                assert(stored_at(*child, qs, idx + 1) == (
                                    if same_position(sv, qs, idx + 1) { Some(route) } else { stored_at(child_before, qs, idx + 1) }));
                                if old_self.param_child is None {
                                    lemma_bare_stored(child_before, qs, idx + 1);
                                }
                            }
                        } else {
                            assert(!same_position(sv, qs, idx as int));
                        }
                    }
                    assert forall|qs: Seq<Seq<char>>, ps: Seq<(Seq<char>, Seq<char>)>|
                        no_wildcard_from(sv, idx as int) && idx <= qs.len() && !matches_from(sv, qs, idx as int)
                        implies #[trigger] lookup(*self, qs, idx as int, ps) == lookup(old_self, qs, idx as int, ps) by {
                        if idx < qs.len() {
                            lemma_matches_step(sv, qs, idx as int);
                            assert(no_wildcard_from(sv, idx + 1));
                            let p2 = ps.push((name_of(child.node_type), qs[idx as int]));
                            assert(lookup(*child, qs, idx + 1, p2) == lookup(child_before, qs, idx + 1, p2));
                            if old_self.param_child is None {
                                lemma_bare_lookup(child_before, qs, idx + 1, p2);
                            }
                        }
                    }
                    assert forall|qs: Seq<Seq<char>>, ps: Seq<(Seq<char>, Seq<char>)>|
                        no_wildcard_from(sv, idx as int) && names_fit(old_self, sv, idx as int)
                        && matches_from(sv, qs, idx as int) && lookup(old_self, qs, idx as int, ps) is None
                        implies #[trigger] lookup(*self, qs, idx as int, ps)
                            == Some((route, ps + captures_from(sv, qs, idx as int))) by {
                        lemma_matches_step(sv, qs, idx as int);
                        assert(no_wildcard_from(sv, idx + 1));
                        assert(name_of(child_before.node_type) == param_name_of(seg));
                        let p2 = ps.push((param_name_of(seg), qs[idx as int]));
                        if old_self.param_child is None {
                            lemma_bare_lookup(child_before, qs, idx + 1, p2);
                            lemma_bare_lookup(child_before, sv, idx + 1, p2);
                        } else {
                            assert(lookup(child_before, qs, idx + 1, p2) is None);
                            assert(names_fit(child_before, sv, idx + 1));
                        }
                        assert(lookup(*child, qs, idx + 1, p2) == Some((route, p2 + captures_from(sv, qs, idx + 1))));
                        assert(lookup_children(old_self.children@, qs, idx as int, ps, 0) is None);
                        assert(self.children@ == old_self.children@);
                        assert(p2 + captures_from(sv, qs, idx + 1) =~= ps + captures_from(sv, qs, idx as int));
                    }
                }
            },
            RadixNodeType::Wildcard => {
                let mut child = match self.wildcard_child.take() {
                    Some(c) => c,
                    None => {
                        let fresh = Box::new(SegmentNode::new(RadixNodeType::Wildcard));
                        proof {
                            lemma_wf_bare(*fresh);
                            lemma_bare_total(*fresh);
                            lemma_bare_stored(*fresh, sv, idx + 1);
                        }
                        fresh
                    },
                };
                let ghost child_before = *child;
                child.insert_segments(segs, idx + 1, route);
                self.wildcard_child = Some(child);
                proof {
                    assert(is_wildcard_segment(seg));
                    assert(!is_param_segment(seg));
                    assert(old_self.wildcard_child is None ==> route_total(child_before) == 0
                        && stored_at(child_before, sv, idx + 1) is None);
                    assert(old_self.wildcard_child matches Some(wc) ==> *wc == child_before);
                    assert(!no_wildcard_from(sv, idx as int));
                    assert(!all_static_from(sv, idx as int));
                    assert(old_self.wildcard_child is None ==> child_before.is_bare());
                    assert forall|qs: Seq<Seq<char>>| idx <= qs.len() implies #[trigger] stored_at(*self, qs, idx as int) == (
                        if same_position(sv, qs, idx as int) { Some(route) } else { stored_at(old_self, qs, idx as int) }) by {
                        if qs.len() > idx {
                            lemma_same_position_step(sv, qs, idx as int);
                            if !is_param_segment(qs[idx as int]) && is_wildcard_segment(qs[idx as int]) {
                                assert(stored_at(*child, qs, idx + 1) == (
                                    if same_position(sv, qs, idx + 1) { Some(route) } else { stored_at(child_before, qs, idx + 1) }));
                                if old_self.wildcard_child is None {
                                    lemma_bare_stored(child_before, qs, idx + 1);
                                }
                            }
                        } else {
                            assert(!same_position(sv, qs, idx as int));
                        }
                    }
                }
            },
        }
    }

    /// Takes the route of `segs[idx..]` out of the tree, trying literal children first,
    /// then the parameter child, then the wildcard child; a child left without route and
    /// children is dropped.
    pub(crate) fn remove_segments(&mut self, segs: &Vec<String>, idx: usize) -> (r: Option<R>)
        requires
            wf(*old(self)),
            idx <= segs@.len(),
        ensures
            wf(*final(self)),
            final(self).kind() == old(self).kind(),
            r == removable(*old(self), strings_view(segs@), idx as int),
            r is None ==> removable(*final(self), strings_view(segs@), idx as int) is None,
            route_total(*final(self)) + (if r is Some { 1int } else { 0int }) == route_total(*old(self)),
            forall|qs: Seq<Seq<char>>| idx <= qs.len() && (r is None || !may_name(strings_view(segs@), qs, idx as int))
                ==> #[trigger] stored_at(*final(self), qs, idx as int) == stored_at(*old(self), qs, idx as int),
            all_static_from(strings_view(segs@), idx as int) && stored_at(*old(self), strings_view(segs@), idx as int) is Some
                ==> r == stored_at(*old(self), strings_view(segs@), idx as int)
                    && stored_at(*final(self), strings_view(segs@), idx as int) is None,
            forall|qs: Seq<Seq<char>>| idx <= qs.len() ==> #[trigger] stored_at(*final(self), qs, idx as int)
                == stored_at(*old(self), qs, idx as int) || stored_at(*final(self), qs, idx as int) is None,
            forall|qs: Seq<Seq<char>>| idx <= qs.len() && #[trigger] stored_at(*final(self), qs, idx as int) is None
                && stored_at(*old(self), qs, idx as int) is Some ==> stored_at(*old(self), qs, idx as int) == r,
        decreases segs@.len() - idx,
    {
        let ghost sv = strings_view(segs@);
        let ghost old_self = *self;
        if idx >= segs.len() {
            let r = self.route.take();
            proof {
                assert forall|qs: Seq<Seq<char>>| idx <= qs.len() && (r is None || !may_name(sv, qs, idx as int))
                    implies #[trigger] stored_at(*self, qs, idx as int) == stored_at(old_self, qs, idx as int) by {
                    if r is Some && qs.len() == idx {
                        assert(may_name(sv, qs, idx as int));
                    }
                }
                assert forall|qs: Seq<Seq<char>>| idx <= qs.len() && #[trigger] stored_at(*self, qs, idx as int) is None
                    && stored_at(old_self, qs, idx as int) is Some implies stored_at(old_self, qs, idx as int) == r by {
                    if qs.len() > idx {
                        assert(stored_at(*self, qs, idx as int) == stored_at(old_self, qs, idx as int));
                    }
                }
            }
            return r;
        }
        proof {
            lemma_wf_unfold(*self);
            if all_static_from(sv, idx as int) && stored_at(*self, sv, idx as int) is Some {
                lemma_static_removable(*self, sv, idx as int);
            }
        }
        let segment = segs[idx].as_str();
        let ghost old_ch = self.children@;
        let ghost n = old_ch.len();
        let mut k: usize = 0;
        while k < self.children.len()
            invariant
                sv == strings_view(segs@),
                idx < segs.len(),
                segment@ == sv[idx as int],
                old_self == *old(self),
                wf(old_self),
                old_self.param_child matches Some(pc) ==> pc.node_type is Parameter && wf(*pc)
                    && (param_part(pc.node_type) matches Some(part) && is_piece(part)),
                old_self.wildcard_child matches Some(wc) ==> wc.node_type is Wildcard && wf(*wc),
                self.node_type == old_self.node_type,
                self.param_child == old_self.param_child,
                self.wildcard_child == old_self.wildcard_child,
                self.route == old_self.route,
                old_ch == old_self.children@,
                n == old_ch.len(),
                self.children@.len() == n,
                k <= n,
                wf_children(self.children@, 0),
                forall|m: int| 0 <= m < n ==> (#[trigger] self.children@[m]).0 == old_ch[m].0,
                forall|m: int| k <= m < n ==> (#[trigger] self.children@[m]) == old_ch[m],
                forall|m: int| 0 <= m < k ==> (#[trigger] self.children@[m]).0@ != sv[idx as int]
                    || removable(self.children@[m].1, sv, idx + 1) is None,
                removable_children(old_ch, sv, idx as int, 0) == removable_children(old_ch, sv, idx as int, k as int),
                children_total(self.children@, n as int) == children_total(old_ch, n as int),
                keys_unique(old_ch),
                forall|m: int, qs: Seq<Seq<char>>| 0 <= m < n && idx + 1 <= qs.len()
                    ==> #[trigger] stored_at(self.children@[m].1, qs, idx + 1) == stored_at(old_ch[m].1, qs, idx + 1),
            decreases n - k,
        {
            if str_eq(self.children[k].0.as_str(), segment) {
                let ghost before = self.children@;
                proof { lemma_wf_children_at(before, 0, k as int); }
                let res = self.children[k].1.remove_segments(segs, idx + 1);
                let ghost after = self.children@;
                proof {
                    assert(after == before.update(k as int, after[k as int]));
                    lemma_wf_children_update(before, 0, k as int, after[k as int]);
                    lemma_children_total_update(before, n as int, k as int, after[k as int]);
                }
                if res.is_some() {
                    let child = &self.children[k].1;
                    if child.route.is_none() && child.children.len() == 0 && child.param_child.is_none()
                        && child.wildcard_child.is_none() {
                        proof {
                            lemma_bare_total(after[k as int].1);
                            lemma_wf_children_remove(after, 0, k as int);
                            lemma_children_total_remove(after, k as int);
                        }
                        let _ = self.children.remove(k);
                    }
                    proof {
                        assert(removable_children(old_ch, sv, idx as int, k as int) == res);
                        let fin = self.children@;
                        let pruned = fin.len() < n;
                        assert(pruned ==> fin == after.remove(k as int) && after[k as int].1.is_bare());
                        assert(!pruned ==> fin == after);
                        if all_static_from(sv, idx as int) && stored_at(old_self, sv, idx as int) is Some {
                            assert(is_static_segment(sv[idx as int]));
                            assert(all_static_from(sv, idx + 1));
                            lemma_stored_children_keyed(old_ch, sv, idx as int);
                            assert(before[k as int] == old_ch[k as int]);
                            assert(stored_at(old_self, sv, idx as int) == stored_at(old_ch[k as int].1, sv, idx + 1));
                            assert(stored_at(after[k as int].1, sv, idx + 1) is None);
                            if pruned {
                                assert(keys_unique(fin));
                                assert forall|m: int| 0 <= m < fin.len() implies (#[trigger] fin[m]).0@ != sv[idx as int] by {
                                    let m0 = if m < k { m } else { m + 1 };
                                    assert(fin[m] == after[m0]);
                                    assert(old_ch[m0].0@ != old_ch[k as int].0@);
                                }
                                lemma_stored_children_keyed(fin, sv, idx as int);
                            } else {
                                assert(keys_unique(fin));
                                lemma_stored_children_keyed(fin, sv, idx as int);
                                assert(fin[k as int].0@ == sv[idx as int]);
                            }
                        }
                        assert forall|qs: Seq<Seq<char>>| idx <= qs.len() && !may_name(sv, qs, idx as int)
                            implies #[trigger] stored_at(*self, qs, idx as int) == stored_at(old_self, qs, idx as int) by {
                            if qs.len() > idx {
                                lemma_may_name_step(sv, qs, idx as int);
                                let qk = qs[idx as int];
                                if !is_param_segment(qk) && !is_wildcard_segment(qk) {
                                    assert forall|m: int| 0 <= m < n && m != k && idx + 1 <= qs.len()
                                        implies stored_at(#[trigger] after[m].1, qs, idx + 1) == stored_at(old_ch[m].1, qs, idx + 1) by {
                                        assert(after[m] == before[m]);
                                        assert(stored_at(before[m].1, qs, idx + 1) == stored_at(old_ch[m].1, qs, idx + 1));
                                    }
                                    if qk == sv[idx as int] {
                                        assert(stored_at(after[k as int].1, qs, idx + 1) == stored_at(old_ch[k as int].1, qs, idx + 1));
                                    }
                                    lemma_stored_children_keyed(old_ch, qs, idx as int);
                                    if !pruned {
                                        lemma_stored_children_pointwise(after, old_ch, qs, idx as int, 0);
                                    } else {
                                        assert(keys_unique(fin));
                                        lemma_stored_children_keyed(fin, qs, idx as int);
                                        if qk == sv[idx as int] {
                                            lemma_bare_stored(after[k as int].1, qs, idx + 1);
                                            assert(old_ch[k as int].0@ == qk);
                                            assert forall|m: int| 0 <= m < fin.len() implies (#[trigger] fin[m]).0@ != qk by {
                                                let m0 = if m < k { m } else { m + 1 };
                                                assert(fin[m] == after[m0]);
                                                assert(old_ch[m0].0@ != old_ch[k as int].0@);
                                            }
                                        } else {
                                            if exists|m: int| 0 <= m < n && (#[trigger] old_ch[m]).0@ == qk {
                                                let m = choose|m: int| 0 <= m < n && (#[trigger] old_ch[m]).0@ == qk;
                                                let m1 = if m < k { m } else { m - 1 };
                                                assert(fin[m1] == after[m]);
                                                assert(stored_at_children(fin, qs, idx as int, 0) == stored_at(fin[m1].1, qs, idx + 1));
                                                assert(stored_at_children(old_ch, qs, idx as int, 0) == stored_at(old_ch[m].1, qs, idx + 1));
                                            } else {
                                                assert forall|m: int| 0 <= m < fin.len() implies (#[trigger] fin[m]).0@ != qk by {
                                                    let m0 = if m < k { m } else { m + 1 };
                                                    assert(fin[m] == after[m0]);
                                                    assert(old_ch[m0].0@ != qk);
                                                }
                                                assert forall|m: int| 0 <= m < old_ch.len() implies (#[trigger] old_ch[m]).0@ != qk by {}
                                            }
                                        }
                                    }
                                }
                            }
                        }
                    }
                    proof {
                        let fin = self.children@;
                        let pruned = fin.len() < n;
                        assert forall|qs: Seq<Seq<char>>| idx <= qs.len() implies #[trigger] stored_at(*self, qs, idx as int)
                            == stored_at(old_self, qs, idx as int) || stored_at(*self, qs, idx as int) is None by {
                            if qs.len() > idx && may_name(sv, qs, idx as int) {
                                lemma_may_name_step(sv, qs, idx as int);
                                let qk = qs[idx as int];
                                if !is_param_segment(qk) && !is_wildcard_segment(qk) {
                                    assert(qk == sv[idx as int]);
                                    assert(before[k as int] == old_ch[k as int]);
                                    assert(stored_at(after[k as int].1, qs, idx + 1) == stored_at(old_ch[k as int].1, qs, idx + 1)
                                        || stored_at(after[k as int].1, qs, idx + 1) is None);
                                    lemma_stored_children_keyed(old_ch, qs, idx as int);
                                    assert(keys_unique(fin));
                                    lemma_stored_children_keyed(fin, qs, idx as int);
                                    if pruned {
                                        assert forall|m: int| 0 <= m < fin.len() implies (#[trigger] fin[m]).0@ != qk by {
                                            let m0 = if m < k { m } else { m + 1 };
                                            assert(fin[m] == after[m0]);
                                            assert(old_ch[m0].0@ != old_ch[k as int].0@);
                                        }
                                    } else {
                                        assert(fin[k as int].0@ == qk);
                                    }
                                }
                            }
                        }
                        assert forall|qs: Seq<Seq<char>>| idx <= qs.len() && #[trigger] stored_at(*self, qs, idx as int) is None
                            && stored_at(old_self, qs, idx as int) is Some implies stored_at(old_self, qs, idx as int) == res by {
                            if qs.len() > idx && may_name(sv, qs, idx as int) {
                                lemma_may_name_step(sv, qs, idx as int);
                                let qk = qs[idx as int];
                                if !is_param_segment(qk) && !is_wildcard_segment(qk) {
                                    assert(qk == sv[idx as int]);
                                    assert(before[k as int] == old_ch[k as int]);
                                    lemma_stored_children_keyed(old_ch, qs, idx as int);
                                    assert(keys_unique(fin));
                                    lemma_stored_children_keyed(fin, qs, idx as int);
                                    if pruned {
                                        lemma_bare_stored(after[k as int].1, qs, idx + 1);
                                    } else {
                                        assert(fin[k as int].0@ == qk);
                                    }
                                    assert(stored_at(after[k as int].1, qs, idx + 1) is None);
                                } else {
                                    assert(stored_at(*self, qs, idx as int) == stored_at(old_self, qs, idx as int));
                                }
                            }
                        }
                    }
                    return res;
                }
                proof {
                    assert forall|m: int| 0 <= m < k + 1 implies (#[trigger] after[m]).0@ != sv[idx as int]
                        || removable(after[m].1, sv, idx + 1) is None by {
                        if m < k { assert(after[m] == before[m]); }
                    }
                    assert forall|m: int, qs: Seq<Seq<char>>| 0 <= m < n && idx + 1 <= qs.len()
                        implies #[trigger] stored_at(after[m].1, qs, idx + 1) == stored_at(old_ch[m].1, qs, idx + 1) by {
                        if m != k {
                            assert(after[m] == before[m]);
                            assert(stored_at(before[m].1, qs, idx + 1) == stored_at(old_ch[m].1, qs, idx + 1));
                        } else {
                            assert(stored_at(after[m].1, qs, idx + 1) == stored_at(before[m].1, qs, idx + 1));
                        }
                    }
                }
            }
            k = k + 1;
        }
        proof {
            lemma_removable_children_none(self.children@, sv, idx as int, 0);
            if all_static_from(sv, idx as int) && stored_at(old_self, sv, idx as int) is Some {
                lemma_static_removable(old_self, sv, idx as int);
                assert(removable_children(old_ch, sv, idx as int, n as int) is None);
                assert(false);
            }
            assert forall|qs: Seq<Seq<char>>| idx < qs.len() implies
                #[trigger] stored_at_children(self.children@, qs, idx as int, 0) == stored_at_children(old_ch, qs, idx as int, 0) by {
                lemma_stored_children_pointwise(self.children@, old_ch, qs, idx as int, 0);
            }
        }
        let ghost ch_after = self.children@;
        match self.param_child.take() {
            Some(mut pc) => {
                let ghost pc0 = *pc;
                let res = pc.remove_segments(segs, idx + 1);
                let ghost pc1 = *pc;
                if res.is_some() {
                    if pc.route.is_none() && pc.children.len() == 0 && pc.param_child.is_none()
                        && pc.wildcard_child.is_none() {
                        proof { lemma_bare_total(*pc); }
                        self.param_child = None;
                    } else {
                        self.param_child = Some(pc);
                    }
                    proof {
                        assert(self.param_child is None ==> pc1.is_bare());
                        assert(self.param_child matches Some(b) ==> *b == pc1);
                        assert forall|qs: Seq<Seq<char>>| idx <= qs.len() && !may_name(sv, qs, idx as int)
                            implies #[trigger] stored_at(*self, qs, idx as int) == stored_at(old_self, qs, idx as int) by {
                            if qs.len() > idx {
                                lemma_may_name_step(sv, qs, idx as int);
                                assert(stored_at_children(self.children@, qs, idx as int, 0) == stored_at_children(old_ch, qs, idx as int, 0));
                                if is_param_segment(qs[idx as int]) {
                                    assert(stored_at(pc1, qs, idx + 1) == stored_at(pc0, qs, idx + 1));
                                    if self.param_child is None {
                                        lemma_bare_stored(pc1, qs, idx + 1);
                                    }
                                }
                            }
                        }
                        assert forall|qs: Seq<Seq<char>>| idx <= qs.len() implies #[trigger] stored_at(*self, qs, idx as int)
                            == stored_at(old_self, qs, idx as int) || stored_at(*self, qs, idx as int) is None by {
                            if qs.len() > idx {
                                assert(stored_at_children(self.children@, qs, idx as int, 0) == stored_at_children(old_ch, qs, idx as int, 0));
                                if is_param_segment(qs[idx as int]) {
                                    assert(stored_at(pc1, qs, idx + 1) == stored_at(pc0, qs, idx + 1)
                                        || stored_at(pc1, qs, idx + 1) is None);
                                }
                            }
                        }
                        assert forall|qs: Seq<Seq<char>>| idx <= qs.len() && #[trigger] stored_at(*self, qs, idx as int) is None
                            && stored_at(old_self, qs, idx as int) is Some implies stored_at(old_self, qs, idx as int) == res by {
                            if qs.len() > idx {
                                assert(stored_at_children(self.children@, qs, idx as int, 0) == stored_at_children(old_ch, qs, idx as int, 0));
                                if is_param_segment(qs[idx as int]) {
                                    if self.param_child is None {
                                        lemma_bare_stored(pc1, qs, idx + 1);
                                    }
                                    assert(stored_at(pc1, qs, idx + 1) is None);
                                }
                            }
                        }
                    }
                    return res;
                }
                self.param_child = Some(pc);
                proof {
                    assert forall|qs: Seq<Seq<char>>| idx + 1 <= qs.len()
                        implies #[trigger] stored_at(pc1, qs, idx + 1) == stored_at(pc0, qs, idx + 1) by {}
                }
            },
            None => {},
        }
        let ghost param_after = self.param_child;
        match self.wildcard_child.take() {
            Some(mut wc) => {
                let ghost wc0 = *wc;
                let res = wc.remove_segments(segs, idx + 1);
                let ghost wc1 = *wc;
                if res.is_some() {
                    if wc.route.is_none() && wc.children.len() == 0 && wc.param_child.is_none()
                        && wc.wildcard_child.is_none() {
                        proof { lemma_bare_total(*wc); }
                        self.wildcard_child = None;
                    } else {
                        self.wildcard_child = Some(wc);
                    }
                    proof {
                        assert(self.wildcard_child is None ==> wc1.is_bare());
                        assert(self.wildcard_child matches Some(b) ==> *b == wc1);
                        assert forall|qs: Seq<Seq<char>>| idx <= qs.len() && !may_name(sv, qs, idx as int)
                            implies #[trigger] stored_at(*self, qs, idx as int) == stored_at(old_self, qs, idx as int) by {
                            if qs.len() > idx {
                                lemma_may_name_step(sv, qs, idx as int);
                                assert(stored_at_children(self.children@, qs, idx as int, 0) == stored_at_children(old_ch, qs, idx as int, 0));
                                if is_param_segment(qs[idx as int]) {
                                    match old_self.param_child {
                                        Some(b) => {
                                            assert(stored_at(*param_after->0, qs, idx + 1) == stored_at(*b, qs, idx + 1));
                                        },
                                        None => {},
                                    }
                                } else if is_wildcard_segment(qs[idx as int]) {
                                    assert(stored_at(wc1, qs, idx + 1) == stored_at(wc0, qs, idx + 1));
                                    if self.wildcard_child is None {
                                        lemma_bare_stored(wc1, qs, idx + 1);
                                    }
                                }
                            }
                        }
                        assert forall|qs: Seq<Seq<char>>| idx <= qs.len() implies #[trigger] stored_at(*self, qs, idx as int)
                            == stored_at(old_self, qs, idx as int) || stored_at(*self, qs, idx as int) is None by {
                            if qs.len() > idx {
                                assert(stored_at_children(self.children@, qs, idx as int, 0) == stored_at_children(old_ch, qs, idx as int, 0));
                                if is_param_segment(qs[idx as int]) {
                                    match old_self.param_child {
                                        Some(b) => {
                                            assert(stored_at(*param_after->0, qs, idx + 1) == stored_at(*b, qs, idx + 1));
                                        },
                                        None => {},
                                    }
                                } else if is_wildcard_segment(qs[idx as int]) {
                                    assert(stored_at(wc1, qs, idx + 1) == stored_at(wc0, qs, idx + 1)
                                        || stored_at(wc1, qs, idx + 1) is None);
                                }
                            }
                        }
                        assert forall|qs: Seq<Seq<char>>| idx <= qs.len() && #[trigger] stored_at(*self, qs, idx as int) is None
                            && stored_at(old_self, qs, idx as int) is Some implies stored_at(old_self, qs, idx as int) == res by {
                            if qs.len() > idx {
                                assert(stored_at_children(self.children@, qs, idx as int, 0) == stored_at_children(old_ch, qs, idx as int, 0));
                                if is_param_segment(qs[idx as int]) {
                                    match old_self.param_child {
                                        Some(b) => {
                                            assert(stored_at(*param_after->0, qs, idx + 1) == stored_at(*b, qs, idx + 1));
                                        },
                                        None => {},
                                    }
                                } else if is_wildcard_segment(qs[idx as int]) {
                                    if self.wildcard_child is None {
                                        lemma_bare_stored(wc1, qs, idx + 1);
                                    }
                                    assert(stored_at(wc1, qs, idx + 1) is None);
                                }
                            }
                        }
                    }
                    return res;
                }
                self.wildcard_child = Some(wc);
                proof {
                    assert forall|qs: Seq<Seq<char>>| idx + 1 <= qs.len()
                        implies #[trigger] stored_at(wc1, qs, idx + 1) == stored_at(wc0, qs, idx + 1) by {}
                }
            },
            None => {},
        }
        proof {
            assert forall|qs: Seq<Seq<char>>| idx <= qs.len()
                implies #[trigger] stored_at(*self, qs, idx as int) == stored_at(old_self, qs, idx as int) by {
                if qs.len() > idx {
                    assert(stored_at_children(self.children@, qs, idx as int, 0) == stored_at_children(old_ch, qs, idx as int, 0));
                    if is_param_segment(qs[idx as int]) {
                        match old_self.param_child {
                            Some(b) => {
                                assert(stored_at(*self.param_child->0, qs, idx + 1) == stored_at(*b, qs, idx + 1));
                            },
                            None => {},
                        }
                    } else if is_wildcard_segment(qs[idx as int]) {
                        match old_self.wildcard_child {
                            Some(b) => {
                                assert(stored_at(*self.wildcard_child->0, qs, idx + 1) == stored_at(*b, qs, idx + 1));
                            },
                            None => {},
                        }
                    }
                }
            }
        }
        None
    }

    /// Takes the route stored at the position `segs[idx..]` names below this node (the
    /// literal child keyed by a literal segment, the parameter child for `{name}`, the
    /// wildcard child for `*`); a child left without route and children is dropped.
    pub(crate) fn take_segments(&mut self, segs: &Vec<String>, idx: usize) -> (r: Option<R>)
        requires
            wf(*old(self)),
            idx <= segs@.len(),
        ensures
            wf(*final(self)),
            final(self).kind() == old(self).kind(),
            r == stored_at(*old(self), strings_view(segs@), idx as int),
            route_total(*final(self)) + (if r is Some { 1int } else { 0int }) == route_total(*old(self)),
            forall|qs: Seq<Seq<char>>| idx <= qs.len() ==> #[trigger] stored_at(*final(self), qs, idx as int) == (
                if same_position(strings_view(segs@), qs, idx as int) { None } else { stored_at(*old(self), qs, idx as int) }),
        decreases segs@.len() - idx,
    {
        let ghost sv = strings_view(segs@);
        let ghost old_self = *self;
        if idx >= segs.len() {
            let r = self.route.take();
            proof {
                assert forall|qs: Seq<Seq<char>>| idx <= qs.len() implies #[trigger] stored_at(*self, qs, idx as int) == (
                    if same_position(sv, qs, idx as int) { None } else { stored_at(old_self, qs, idx as int) }) by {
                    if qs.len() > idx {
                        assert(!same_position(sv, qs, idx as int));
                        assert(stored_at(*self, qs, idx as int) == stored_at(old_self, qs, idx as int));
                    }
                }
            }
            return r;
        }
        let ghost seg = sv[idx as int];
        proof { lemma_wf_unfold(*self); }
        let node_type = RadixNodeType::from_segment(segs[idx].as_str());
        match node_type {
            RadixNodeType::Static(key) => {
                assert(is_static_segment(seg));
                let ghost old_ch = self.children@;
                let pos = first_key(&self.children, key.as_str());
                match pos {
                    None => {
                        proof {
                            lemma_stored_children_none(old_ch, sv, idx as int, 0);
                            assert forall|qs: Seq<Seq<char>>| idx <= qs.len() implies #[trigger] stored_at(*self, qs, idx as int) == (
                                if same_position(sv, qs, idx as int) { None } else { stored_at(old_self, qs, idx as int) }) by {
                                if same_position(sv, qs, idx as int) {
                                    lemma_same_position_step(sv, qs, idx as int);
                                    assert(qs[idx as int] == seg);
                                    lemma_stored_children_none(old_ch, qs, idx as int, 0);
                                }
                            }
                        }
                        None
                    },
                    Some(i) => {
                        proof { lemma_wf_children_at(old_ch, 0, i as int); }
                        let r = self.children[i].1.take_segments(segs, idx + 1);
                        let ghost after = self.children@;
                        proof {
                            assert(after == old_ch.update(i as int, after[i as int]));
                            lemma_wf_children_update(old_ch, 0, i as int, after[i as int]);
                            lemma_children_total_update(old_ch, old_ch.len() as int, i as int, after[i as int]);
                            lemma_stored_children_first(old_ch, sv, idx as int, 0, i as int);
                        }
                        let child = &self.children[i].1;
                        let bare = child.route.is_none() && child.children.len() == 0 && child.param_child.is_none()
                            && child.wildcard_child.is_none();
                        if bare {
                            proof {
                                lemma_bare_total(after[i as int].1);
                                lemma_wf_children_remove(after, 0, i as int);
                                lemma_children_total_remove(after, i as int);
                            }
                            let _ = self.children.remove(i);
                        }
                        proof {
                            let fin = self.children@;
                            assert(bare ==> fin == after.remove(i as int) && after[i as int].1.is_bare());
                            assert(!bare ==> fin == after);
                            assert(keys_unique(fin)) by {
                                if bare {
                                    assert forall|a: int, b: int| 0 <= a < fin.len() && 0 <= b < fin.len() && a != b
                                        implies #[trigger] fin[a].0@ != #[trigger] fin[b].0@ by {
                                        let a0 = if a < i { a } else { a + 1 };
                                        let b0 = if b < i { b } else { b + 1 };
                                        assert(fin[a] == after[a0] && fin[b] == after[b0]);
                                        assert(old_ch[a0].0@ != old_ch[b0].0@);
                                    }
                                } else {
                                    assert forall|a: int, b: int| 0 <= a < fin.len() && 0 <= b < fin.len() && a != b
                                        implies #[trigger] fin[a].0@ != #[trigger] fin[b].0@ by {
                                        assert(old_ch[a].0@ != old_ch[b].0@);
                                    }
                                }
                            }
                            assert forall|qs: Seq<Seq<char>>| idx <= qs.len() implies #[trigger] stored_at(*self, qs, idx as int) == (
                                if same_position(sv, qs, idx as int) { None } else { stored_at(old_self, qs, idx as int) }) by {
                                if qs.len() > idx {
                                    lemma_same_position_step(sv, qs, idx as int);
                                    let qk = qs[idx as int];
                                    if !is_param_segment(qk) && !is_wildcard_segment(qk) {
                                        lemma_stored_children_keyed(old_ch, qs, idx as int);
                                        lemma_stored_children_keyed(fin, qs, idx as int);
                                        assert(stored_at(*self, qs, idx as int) == stored_at_children(fin, qs, idx as int, 0));
                                        assert(stored_at(old_self, qs, idx as int) == stored_at_children(old_ch, qs, idx as int, 0));
                                        if qk == seg {
                                            assert(stored_at(after[i as int].1, qs, idx + 1) == (
                                                if same_position(sv, qs, idx + 1) { None } else { stored_at(old_ch[i as int].1, qs, idx + 1) }));
                                            assert(stored_at_children(old_ch, qs, idx as int, 0) == stored_at(old_ch[i as int].1, qs, idx + 1));
                                            if bare {
                                                lemma_bare_stored(after[i as int].1, qs, idx + 1);
                                                assert forall|m: int| 0 <= m < fin.len() implies (#[trigger] fin[m]).0@ != qk by {
                                                    let m0 = if m < i { m } else { m + 1 };
                                                    assert(fin[m] == after[m0]);
                                                    assert(old_ch[m0].0@ != old_ch[i as int].0@);
                                                }
                                                assert(stored_at_children(fin, qs, idx as int, 0) is None);
                                            } else {
                                                assert(fin[i as int].0@ == qk);
                                                assert(fin[i as int] == after[i as int]);
                                                assert(stored_at_children(fin, qs, idx as int, 0) == stored_at(after[i as int].1, qs, idx + 1));
                                            }
                                        } else {
                                            assert(!same_position(sv, qs, idx as int));
                                            if exists|m: int| 0 <= m < old_ch.len() && (#[trigger] old_ch[m]).0@ == qk {
                                                let m = choose|m: int| 0 <= m < old_ch.len() && (#[trigger] old_ch[m]).0@ == qk;
                                                assert(m != i);
                                                let m1 = if bare && m > i { m - 1 } else { m };
                                                assert(fin[m1] == after[m]);
                                                assert(after[m] == old_ch[m]);
                                                assert(stored_at_children(fin, qs, idx as int, 0) == stored_at(fin[m1].1, qs, idx + 1));
                                            } else {
                                                assert forall|m: int| 0 <= m < fin.len() implies (#[trigger] fin[m]).0@ != qk by {
                                                    let m0 = if bare && m >= i { m + 1 } else { m };
                                                    assert(fin[m] == after[m0]);
                                                    assert(old_ch[m0].0@ != qk);
                                                }
                                                assert(stored_at_children(fin, qs, idx as int, 0) is None);
                                            }
                                        }
                                    } else {
                                        assert(!same_position(sv, qs, idx as int));
                                        assert(stored_at(*self, qs, idx as int) == stored_at(old_self, qs, idx as int));
                                    }
                                } else {
                                    assert(!same_position(sv, qs, idx as int));
                                    assert(stored_at(*self, qs, idx as int) == stored_at(old_self, qs, idx as int));
                                }
                            }
                        }
                        r
                    },
                }
            },
            RadixNodeType::Parameter(_) => {
                assert(is_param_segment(seg));
                let ghost old_ch = self.children@;
                match self.param_child.take() {
                    Some(mut pc) => {
                        let ghost pc0 = *pc;
                        let r = pc.take_segments(segs, idx + 1);
                        let ghost pc1 = *pc;
                        if pc.route.is_none() && pc.children.len() == 0 && pc.param_child.is_none()
                            && pc.wildcard_child.is_none() {
                            proof { lemma_bare_total(*pc); }
                            self.param_child = None;
                        } else {
                            self.param_child = Some(pc);
                        }
                        proof {
                            assert(self.param_child is None ==> pc1.is_bare());
                            assert(self.param_child matches Some(b) ==> *b == pc1);
                            assert forall|qs: Seq<Seq<char>>| idx <= qs.len() implies #[trigger] stored_at(*self, qs, idx as int) == (
                                if same_position(sv, qs, idx as int) { None } else { stored_at(old_self, qs, idx as int) }) by {
                                if qs.len() > idx {
                                    lemma_same_position_step(sv, qs, idx as int);
                                    if is_param_segment(qs[idx as int]) {
                                        if self.param_child is None {
                                            lemma_bare_stored(pc1, qs, idx + 1);
                                        }
                                    } else {
                                        assert(!same_position(sv, qs, idx as int));
                                    }
                                } else {
                                    assert(!same_position(sv, qs, idx as int));
                                }
                            }
                        }
                        r
                    },
                    None => {
                        proof {
                            assert forall|qs: Seq<Seq<char>>| idx <= qs.len() implies #[trigger] stored_at(*self, qs, idx as int) == (
                                if same_position(sv, qs, idx as int) { None } else { stored_at(old_self, qs, idx as int) }) by {
                                if qs.len() > idx {
                                    lemma_same_position_step(sv, qs, idx as int);
                                }
                            }
                        }
                        None
                    },
                }
            },
            RadixNodeType::Wildcard => {
                assert(is_wildcard_segment(seg));
                assert(!is_param_segment(seg));
                match self.wildcard_child.take() {
                    Some(mut wc) => {
                        let ghost wc0 = *wc;
                        let r = wc.take_segments(segs, idx + 1);
                        let ghost wc1 = *wc;
                        if wc.route.is_none() && wc.children.len() == 0 && wc.param_child.is_none()
                            && wc.wildcard_child.is_none() {
                            proof { lemma_bare_total(*wc); }
                            self.wildcard_child = None;
                        } else {
                            self.wildcard_child = Some(wc);
                        }
                        proof {
                            assert(self.wildcard_child is None ==> wc1.is_bare());
                            assert(self.wildcard_child matches Some(b) ==> *b == wc1);
                            assert forall|qs: Seq<Seq<char>>| idx <= qs.len() implies #[trigger] stored_at(*self, qs, idx as int) == (
                                if same_position(sv, qs, idx as int) { None } else { stored_at(old_self, qs, idx as int) }) by {
                                if qs.len() > idx {
                                    lemma_same_position_step(sv, qs, idx as int);
                                    if !is_param_segment(qs[idx as int]) && is_wildcard_segment(qs[idx as int]) {
                                        if self.wildcard_child is None {
                                            lemma_bare_stored(wc1, qs, idx + 1);
                                        }
                                    } else {
                                        assert(!same_position(sv, qs, idx as int));
                                    }
                                } else {
                                    assert(!same_position(sv, qs, idx as int));
                                }
                            }
                        }
                        r
                    },
                    None => {
                        proof {
                            assert forall|qs: Seq<Seq<char>>| idx <= qs.len() implies #[trigger] stored_at(*self, qs, idx as int) == (
                                if same_position(sv, qs, idx as int) { None } else { stored_at(old_self, qs, idx as int) }) by {
                                if qs.len() > idx {
                                    lemma_same_position_step(sv, qs, idx as int);
                                }
                            }
                        }
                        None
                    },
                }
            },
        }
    }

    /// The number of routes in the tree.
    pub(crate) fn count_routes(&self) -> (r: usize)
        requires
            route_total(*self) <= usize::MAX,
        ensures
            r == route_total(*self),
        decreases self,
    {
        let mut count: usize = if self.route.is_some() { 1 } else { 0 };
        let ghost own: int = if self.route is Some { 1 } else { 0 };
        let ghost n = self.children@.len() as int;
        let mut k: usize = 0;
        while k < self.children.len()
            invariant
                n == self.children@.len(),
                k <= n,
                count == own + children_total(self.children@, k as int),
                own + children_total(self.children@, n) <= usize::MAX,
            decreases n - k,
        {
            proof {
                lemma_children_total_mono(self.children@, k as int + 1, n);
            }
            let c = self.children[k].1.count_routes();
            count = count + c;
            k = k + 1;
        }
        if let Some(pc) = &self.param_child {
            count = count + pc.count_routes();
        }
        if let Some(wc) = &self.wildcard_child {
            count = count + wc.count_routes();
        }
        count
    }

    /// The number of nodes in the tree.
    pub(crate) fn count_nodes(&self) -> (r: usize)
        requires
            node_total(*self) <= usize::MAX,
        ensures
            r == node_total(*self),
        decreases self,
    {
        let mut count: usize = 1;
        let ghost n = self.children@.len() as int;
        let mut k: usize = 0;
        while k < self.children.len()
            invariant
                n == self.children@.len(),
                k <= n,
                count == 1 + children_nodes(self.children@, k as int),
                1 + children_nodes(self.children@, n) <= usize::MAX,
            decreases n - k,
        {
            proof {
                lemma_children_nodes_mono(self.children@, k as int + 1, n);
            }
            let c = self.children[k].1.count_nodes();
            count = count + c;
            k = k + 1;
        }
        if let Some(pc) = &self.param_child {
            count = count + pc.count_nodes();
        }
        if let Some(wc) = &self.wildcard_child {
            count = count + wc.count_nodes();
        }
        count
    }

    /// Appends to `paths` the paths of the routes at and below this node, whose own path
    /// (without the leading `/`) is `prefix`.
    pub(crate) fn list_paths(&self, prefix: &str, paths: &mut Vec<String>)
        ensures
            strings_view(final(paths)@) == strings_view(old(paths)@) + paths_of(*self, prefix@),
        decreases self,
    {
        let ghost base = strings_view(paths@);
        let ghost own: Seq<Seq<char>> = if self.route is Some { seq![route_path(prefix@)] } else { Seq::empty() };
        if self.route.is_some() {
            let path = if prefix.unicode_len() == 0 {
                String::from_str("/")
            } else {
                String::from_str("/").concat(prefix)
            };
            proof {
                reveal_strlit("/");
                assert("/"@ =~= seq!['/']);
                assert(path@ == route_path(prefix@));
            }
            paths.push(path);
        }
        assert(strings_view(paths@) =~= base + own);
        let ghost n = self.children@.len() as int;
        let mut k: usize = 0;
        while k < self.children.len()
            invariant
                n == self.children@.len(),
                k <= n,
                strings_view(paths@) == base + own + paths_children(self.children@, prefix@, k as int),
            decreases n - k,
        {
            let child_prefix = sub_path(prefix, self.children[k].0.as_str());
            let ghost mid = strings_view(paths@);
            self.children[k].1.list_paths(child_prefix.as_str(), paths);
            assert(strings_view(paths@) =~= base + own + paths_children(self.children@, prefix@, k as int + 1));
            k = k + 1;
        }
        let ghost after_children = strings_view(paths@);
        if let Some(pc) = &self.param_child {
            if let RadixNodeType::Parameter(name) = &pc.node_type {
                let braced = String::from_str("{").concat(name.as_str()).concat("}");
                proof {
                    reveal_strlit("{");
                    reveal_strlit("}");
                    assert(braced@ =~= seq!['{'] + name@ + seq!['}']);
                }
                let child_prefix = sub_path(prefix, braced.as_str());
                pc.list_paths(child_prefix.as_str(), paths);
            }
        }
        let ghost after_param = strings_view(paths@);
        assert(after_param =~= after_children + param_paths(*self, prefix@));
        if let Some(wc) = &self.wildcard_child {
            let star = String::from_str("*");
            proof {
                reveal_strlit("*");
                assert(star@ =~= seq!['*']);
            }
            let child_prefix = sub_path(prefix, star.as_str());
            wc.list_paths(child_prefix.as_str(), paths);
        }
        assert(strings_view(paths@) =~= after_param + wildcard_paths(*self, prefix@));
        assert(paths_of(*self, prefix@) == own + paths_children(self.children@, prefix@, n)
            + param_paths(*self, prefix@) + wildcard_paths(*self, prefix@));
        assert(strings_view(paths@) =~= base + paths_of(*self, prefix@));
    }
}

/// Whether a path `q` listed below `node`, whose position is `prefix`, begins with the
/// segments of `prefix` and leads a removal from `node` to a route.
pub(crate) open spec fn listed_leads<R>(node: SegmentNode<R>, prefix: Seq<char>, q: Seq<char>) -> bool {
    let s = segments(route_path(prefix));
    &&& segments(q).len() >= s.len()
    &&& segments(q).subrange(0, s.len() as int) == s
    &&& removable(node, segments(q), s.len() as int) is Some
    &&& stored_at(node, segments(q), s.len() as int) is Some
}

/// The position below a child: the parent's segments and the child's part.
proof fn lemma_route_path_child(prefix: Seq<char>, part: Seq<char>)
    requires
        is_piece(part),
    ensures
        segments(route_path(child_path(prefix, part))) == segments(route_path(prefix)).push(part),
{
    if prefix.len() == 0 {
        lemma_segments_push_piece(Seq::<char>::empty(), part);
        assert(Seq::<char>::empty() + seq!['/'] + part =~= seq!['/'] + part);
        assert(segments(Seq::<char>::empty()) == Seq::<Seq<char>>::empty()) by {
            assert(split_on(Seq::<char>::empty(), '/') == seq![Seq::<char>::empty()]);
            let q = seq![Seq::<char>::empty()];
            assert(q.drop_last() =~= Seq::<Seq<char>>::empty());
            assert(nonempty(Seq::<Seq<char>>::empty()) == Seq::<Seq<char>>::empty());
        }
        lemma_segments_root();
        assert(route_path(prefix) == seq!['/']);
    } else {
        lemma_segments_push_piece(route_path(prefix), part);
        assert(route_path(child_path(prefix, part)) =~= route_path(prefix) + seq!['/'] + part);
    }
}

/// A removal from a list of literal children finds a route when child `j` is keyed by the
/// segment and a route is found below it.
proof fn lemma_removable_children_some<R>(children: Seq<(String, SegmentNode<R>)>, segs: Seq<Seq<char>>, i: int,
    k: int, j: int)
    requires
        0 <= k <= j < children.len(),
        0 <= i < segs.len(),
        children[j].0@ == segs[i],
        removable(children[j].1, segs, i + 1) is Some,
    ensures
        removable_children(children, segs, i, k) is Some,
    decreases j - k,
{
    if k < j && !(children[k].0@ == segs[i] && removable(children[k].1, segs, i + 1) is Some) {
        lemma_removable_children_some(children, segs, i, k + 1, j);
    }
}

/// Every path listed below `node` leads a removal from `node` to a route.
proof fn lemma_listed_removable<R>(node: SegmentNode<R>, prefix: Seq<char>, j: int)
    requires
        wf(node),
        0 <= j < paths_of(node, prefix).len(),
    ensures
        listed_leads(node, prefix, paths_of(node, prefix)[j]),
    decreases node, 1int,
{
    lemma_wf_unfold(node);
    let s = segments(route_path(prefix));
    let own: Seq<Seq<char>> = if node.route is Some { seq![route_path(prefix)] } else { Seq::empty() };
    let pc = paths_children(node.children@, prefix, node.children@.len() as int);
    let pp = param_paths(node, prefix);
    let wp = wildcard_paths(node, prefix);
    let all = paths_of(node, prefix);
    assert(all == own + pc + pp + wp);
    let q = all[j];
    if j < own.len() {
        assert(q == route_path(prefix));
        assert(segments(q).subrange(0, s.len() as int) =~= s);
        assert(stored_at(node, segments(q), s.len() as int) == node.route);
    } else if j < own.len() + pc.len() {
        let jj = j - own.len();
        assert(q == pc[jj]);
        lemma_listed_children(node.children@, prefix, node.children@.len() as int, jj);
        let c = choose|c: int| 0 <= c < node.children@.len() && segments(q).len() > s.len()
            && segments(q).subrange(0, s.len() as int) == s && segments(q)[s.len() as int] == node.children@[c].0@
            && removable(node.children@[c].1, segments(q), s.len() as int + 1) is Some
            && stored_at(node.children@[c].1, segments(q), s.len() as int + 1) is Some;
        lemma_removable_children_some(node.children@, segments(q), s.len() as int, 0, c);
        lemma_wf_children_at(node.children@, 0, c);
        lemma_stored_children_keyed(node.children@, segments(q), s.len() as int);
        assert(is_static_segment(segments(q)[s.len() as int]));
    } else if j < own.len() + pc.len() + pp.len() {
        let jj = j - own.len() - pc.len();
        assert(q == pp[jj]);
        let child = node.param_child->0;
        let part = param_part(child.node_type)->0;
        let cp = child_path(prefix, part);
        assert(pp == paths_of(*child, cp));
        lemma_listed_removable(*child, cp, jj);
        lemma_route_path_child(prefix, part);
        let t = segments(q);
        assert(t.subrange(0, s.len() as int + 1) == s.push(part));
        assert(t.subrange(0, s.len() as int) =~= s.push(part).subrange(0, s.len() as int));
        assert(s.push(part).subrange(0, s.len() as int) =~= s);
        assert(t[s.len() as int] == t.subrange(0, s.len() as int + 1)[s.len() as int]);
        assert(t[s.len() as int] == part);
        assert(is_param_segment(part));
        assert(stored_at(node, t, s.len() as int) == stored_at(*child, t, s.len() as int + 1));
    } else {
        let jj = j - own.len() - pc.len() - pp.len();
        assert(q == wp[jj]);
        let child = node.wildcard_child->0;
        let part = seq!['*'];
        let cp = child_path(prefix, part);
        assert(wp == paths_of(*child, cp));
        lemma_listed_removable(*child, cp, jj);
        lemma_route_path_child(prefix, part);
        let t = segments(q);
        assert(t.subrange(0, s.len() as int + 1) == s.push(part));
        assert(t.subrange(0, s.len() as int) =~= s.push(part).subrange(0, s.len() as int));
        assert(s.push(part).subrange(0, s.len() as int) =~= s);
        assert(t[s.len() as int] == t.subrange(0, s.len() as int + 1)[s.len() as int]);
        assert(t[s.len() as int] == part);
        assert(!is_param_segment(part));
        assert(stored_at(node, t, s.len() as int) == stored_at(*child, t, s.len() as int + 1));
    }
}

/// Every path listed below the first `k` literal children continues the parent's segments
/// with one child's key and leads a removal from that child to a route.
proof fn lemma_listed_children<R>(children: Seq<(String, SegmentNode<R>)>, prefix: Seq<char>, k: int, j: int)
    requires
        wf_children(children, 0),
        0 <= k <= children.len(),
        0 <= j < paths_children(children, prefix, k).len(),
    ensures
        ({
            let q = paths_children(children, prefix, k)[j];
            let s = segments(route_path(prefix));
            exists|c: int| 0 <= c < children.len() && segments(q).len() > s.len()
                && segments(q).subrange(0, s.len() as int) == s && segments(q)[s.len() as int] == children[c].0@
                && removable(children[c].1, segments(q), s.len() as int + 1) is Some
                && stored_at(children[c].1, segments(q), s.len() as int + 1) is Some
        }),
    decreases children, k,
{
    let s = segments(route_path(prefix));
    if k > 0 {
        let first = paths_children(children, prefix, k - 1);
        let key = children[k - 1].0@;
        let cp = child_path(prefix, key);
        let rest = paths_of(children[k - 1].1, cp);
        assert(paths_children(children, prefix, k) == first + rest);
        let q = paths_children(children, prefix, k)[j];
        if j < first.len() {
            assert(q == first[j]);
            lemma_listed_children(children, prefix, k - 1, j);
        } else {
            let jj = j - first.len();
            assert(q == rest[jj]);
            lemma_wf_children_at(children, 0, k - 1);
            lemma_listed_removable(children[k - 1].1, cp, jj);
            lemma_route_path_child(prefix, key);
            let t = segments(q);
            assert(t.subrange(0, s.len() as int + 1) == s.push(key));
            assert(t.subrange(0, s.len() as int) =~= s.push(key).subrange(0, s.len() as int));
            assert(s.push(key).subrange(0, s.len() as int) =~= s);
            assert(t[s.len() as int] == t.subrange(0, s.len() as int + 1)[s.len() as int]);
        }
    }
}

/// Every path listed for a tree leads a removal from its root to a route.
pub(crate) proof fn lemma_paths_removable<R>(root: SegmentNode<R>, j: int)
    requires
        wf(root),
        0 <= j < paths_of(root, Seq::empty()).len(),
    ensures
        removable(root, segments(paths_of(root, Seq::empty())[j]), 0) is Some,
        stored_at(root, segments(paths_of(root, Seq::empty())[j]), 0) is Some,
{
    lemma_listed_removable(root, Seq::empty(), j);
    lemma_segments_root();
    assert(route_path(Seq::<char>::empty()) == seq!['/']);
}

} // verus!

//! A radix tree of routes stored in flat vectors, and shards and a sharded table built on it.
use std::hash::{Hash, Hasher};
use vstd::prelude::*;
use crate::text::{segments, strings_view, split_segment_slices, starts_with_char, ends_with_char, str_eq, substring, owned};
use crate::segment_tree::{matches_from, captures_from, param_name_of, lemma_matches_step};

verus! {

/// The kind of a tree node, given by the path segment that leads to it.
#[derive(Debug, Clone)]
pub enum RadixNodeType {
    /// A literal segment, such as `users`.
    Static(String),
    /// A parameter segment `{name}`, holding the name.
    Parameter(String),
    /// The wildcard segment `*`.
    Wildcard,
}

/// Whether a segment names a parameter: `{...}`.
pub open spec fn is_param_segment(s: Seq<char>) -> bool {
    s.len() > 0 && s[0] == '{' && s.last() == '}'
}

/// Whether a segment is the wildcard `*`.
pub open spec fn is_wildcard_segment(s: Seq<char>) -> bool {
    s == seq!['*']
}

/// A segment that is neither a parameter nor the wildcard.
pub open spec fn is_static_segment(s: Seq<char>) -> bool {
    !is_param_segment(s) && !is_wildcard_segment(s)
}

impl RadixNodeType {
    /// The node kind for a path segment: `{name}` is a parameter, `*` the wildcard, anything
    /// else a literal.
    pub fn from_segment(segment: &str) -> (r: RadixNodeType)
        ensures
            is_param_segment(segment@) ==> (r matches RadixNodeType::Parameter(n) && n@ == segment@.subrange(1, segment@.len() - 1)),
            is_wildcard_segment(segment@) ==> r is Wildcard,
            is_static_segment(segment@) ==> (r matches RadixNodeType::Static(s) && s@ == segment@),
    {
        if starts_with_char(segment, '{') && ends_with_char(segment, '}') {
            let n = segment.unicode_len();
            if n < 2 {
                // a one-character segment cannot both start with `{` and end with `}`
                return RadixNodeType::Static(owned(segment));
            }
            RadixNodeType::Parameter(substring(segment, 1, n - 1))
        } else if segment.unicode_len() == 1 && segment.get_char(0) == '*' {
            assert(segment@ =~= seq!['*']);
            RadixNodeType::Wildcard
        } else {
            proof {
                if segment@ == seq!['*'] {
                    assert(segment@.len() == 1 && segment@[0] == '*');
                }
            }
            RadixNodeType::Static(owned(segment))
        }
    }

    /// Whether a node of this kind takes `segment`: a literal only its own text, a
    /// parameter or the wildcard any segment.
    pub fn matches(&self, segment: &str) -> (r: bool)
        ensures
            r == match self {
                RadixNodeType::Static(s) => s@ == segment@,
                _ => true,
            },
    {
        match self {
            RadixNodeType::Static(s) => str_eq(s.as_str(), segment),
            _ => true,
        }
    }
}

/// An edge to a literal child.
#[derive(Debug, Clone)]
pub struct CompactRadixEdge {
    prefix: String,
    node_index: usize,
}

/// A node: its kind, literal children, at most one parameter child and one wildcard child,
/// and the index of its route if a route ends here.
#[derive(Debug)]
pub struct CompactRadixNode {
    node_type: RadixNodeType,
    children: Vec<CompactRadixEdge>,
    param_child_index: Option<usize>,
    wildcard_child_index: Option<usize>,
    route_index: Option<usize>,
}

impl CompactRadixNode {
    /// The node's kind.
    pub closed spec fn kind(&self) -> RadixNodeType {
        self.node_type
    }

    /// The node has no children and no route.
    pub closed spec fn is_bare(&self) -> bool {
        &&& self.children@.len() == 0
        &&& self.param_child_index is None
        &&& self.wildcard_child_index is None
        &&& self.route_index is None
    }

    /// A node of kind `node_type` with no children and no route.
    pub fn new(node_type: RadixNodeType) -> (r: CompactRadixNode)
        ensures
            r.kind() == node_type,
            r.is_bare(),
    {
        CompactRadixNode {
            node_type,
            children: Vec::new(),
            param_child_index: None,
            wildcard_child_index: None,
            route_index: None,
        }
    }
}

/// No segment of `segs` is the wildcard.
pub open spec fn no_wildcard(segs: Seq<Seq<char>>) -> bool {
    forall|k: int| 0 <= k < segs.len() ==> !is_wildcard_segment(#[trigger] segs[k])
}

/// Every segment of `segs` is a literal.
pub open spec fn all_static(segs: Seq<Seq<char>>) -> bool {
    forall|k: int| 0 <= k < segs.len() ==> is_static_segment(#[trigger] segs[k])
}

spec fn no_wildcard_upto(segs: Seq<Seq<char>>, n: int) -> bool {
    forall|k: int| 0 <= k < n ==> !is_wildcard_segment(#[trigger] segs[k])
}

spec fn all_static_upto(segs: Seq<Seq<char>>, n: int) -> bool {
    forall|k: int| 0 <= k < n ==> is_static_segment(#[trigger] segs[k])
}

/// A node with no literal, parameter or wildcard child.
spec fn no_links(node: CompactRadixNode) -> bool {
    &&& node.children@.len() == 0
    &&& node.param_child_index is None
    &&& node.wildcard_child_index is None
}

/// The first edge of `edges`, from position `k` on, whose prefix is `seg`.
spec fn first_edge(edges: Seq<CompactRadixEdge>, seg: Seq<char>, k: int) -> Option<int>
    decreases edges.len() - k,
{
    if k < 0 || k >= edges.len() {
        None
    } else if edges[k].prefix@ == seg {
        Some(k)
    } else {
        first_edge(edges, seg, k + 1)
    }
}

/// The parameter name held by node `p` (empty if it is not a parameter node).
spec fn param_name(nodes: Seq<CompactRadixNode>, p: int) -> Seq<char> {
    match nodes[p].node_type {
        RadixNodeType::Parameter(n) => n@,
        _ => Seq::<char>::empty(),
    }
}

/// The node reached from `cur` on segment `seg`: a literal edge with the segment's text
/// first, else the parameter child, else the wildcard child.
spec fn step_node(nodes: Seq<CompactRadixNode>, cur: int, seg: Seq<char>) -> Option<int> {
    if cur < 0 || cur >= nodes.len() {
        None
    } else {
        let node = nodes[cur];
        match first_edge(node.children@, seg, 0) {
            Some(e) => Some(node.children@[e].node_index as int),
            None => match node.param_child_index {
                Some(p) => Some(p as int),
                None => match node.wildcard_child_index {
                    Some(w) => Some(w as int),
                    None => None,
                },
            },
        }
    }
}

/// Whether the step from `cur` on `seg` goes through the parameter child (and so captures
/// the segment).
spec fn step_captures(nodes: Seq<CompactRadixNode>, cur: int, seg: Seq<char>) -> bool {
    0 <= cur < nodes.len() && first_edge(nodes[cur].children@, seg, 0) is None
        && nodes[cur].param_child_index is Some
}

/// One step of a lookup: the next node, and the captured parameters extended by
/// `(name, seg)` when the step goes through a parameter child.
spec fn step(nodes: Seq<CompactRadixNode>, cur: int, seg: Seq<char>,
    params: Seq<(Seq<char>, Seq<char>)>) -> Option<(int, Seq<(Seq<char>, Seq<char>)>)>
{
    match step_node(nodes, cur, seg) {
        Some(n) => Some((n, if step_captures(nodes, cur, seg) {
            params.push((param_name(nodes, n), seg))
        } else {
            params
        })),
        None => None,
    }
}

/// Following the segments `segs[i..end]` from node `cur`, step by step.
spec fn walk(nodes: Seq<CompactRadixNode>, cur: int, segs: Seq<Seq<char>>, i: int, end: int,
    params: Seq<(Seq<char>, Seq<char>)>) -> Option<(int, Seq<(Seq<char>, Seq<char>)>)>
    decreases end - i,
{
    if i >= end {
        Some((cur, params))
    } else {
        match step(nodes, cur, segs[i], params) {
            Some((next, ps)) => walk(nodes, next, segs, i + 1, end, ps),
            None => None,
        }
    }
}

/// The links of node `i` are well formed: its children lie after it, literal edges carry
/// literal segments and lead to literal nodes, the parameter child is a parameter node and
/// the wildcard child a wildcard node.
spec fn links_wf(nodes: Seq<CompactRadixNode>, i: int) -> bool {
    let node = nodes[i];
    &&& forall|k: int| #![trigger node.children@[k]] 0 <= k < node.children@.len() ==> {
        let e = node.children@[k];
        &&& i < e.node_index < nodes.len()
        &&& is_static_segment(e.prefix@)
        &&& nodes[e.node_index as int].node_type == RadixNodeType::Static(e.prefix)
    }
    &&& (node.param_child_index matches Some(p) ==> (i < p < nodes.len()
        && nodes[p as int].node_type is Parameter))
    &&& (node.wildcard_child_index matches Some(w) ==> (i < w < nodes.len()
        && nodes[w as int].node_type is Wildcard))
}

/// Every node of `nodes` has well-formed links and a route index below `nroutes`.
spec fn nodes_wf(nodes: Seq<CompactRadixNode>, nroutes: nat) -> bool {
    forall|i: int| #![trigger nodes[i]] 0 <= i < nodes.len() ==> links_wf(nodes, i)
        && (nodes[i].route_index matches Some(r) ==> r < nroutes)
}

/// Two nodes with the same kind and the same children.
spec fn same_links(a: CompactRadixNode, b: CompactRadixNode) -> bool {
    &&& a.node_type == b.node_type
    &&& a.children@ == b.children@
    &&& a.param_child_index == b.param_child_index
    &&& a.wildcard_child_index == b.wildcard_child_index
}

/// A walk only moves to later nodes, and it depends only on the links of the nodes before
/// the one it reaches (and on the kind of that one).
proof fn lemma_walk_frozen(old: Seq<CompactRadixNode>, new: Seq<CompactRadixNode>, nr: nat, cur: int,
    segs: Seq<Seq<char>>, i: int, end: int, params: Seq<(Seq<char>, Seq<char>)>)
    requires
        nodes_wf(old, nr),
        0 <= cur < old.len(),
        old.len() <= new.len(),
        walk(old, cur, segs, i, end, params) is Some,
        forall|j: int| 0 <= j < (walk(old, cur, segs, i, end, params)->0).0 ==> #[trigger] same_links(old[j], new[j]),
        old[(walk(old, cur, segs, i, end, params)->0).0].node_type
            == new[(walk(old, cur, segs, i, end, params)->0).0].node_type,
    ensures
        walk(new, cur, segs, i, end, params) == walk(old, cur, segs, i, end, params),
        cur <= (walk(old, cur, segs, i, end, params)->0).0 < old.len(),
    decreases end - i,
{
    if i < end {
        let so = step(old, cur, segs[i], params);
        let (nx, ps) = so->0;
        assert(links_wf(old, cur));
        let on = old[cur];
        match first_edge(on.children@, segs[i], 0) {
            Some(e) => {
                assert(0 <= e < on.children@.len()) by { lemma_first_edge_range(on.children@, segs[i], 0); }
                assert(on.children@[e].node_index == nx);
            },
            None => {},
        }
        assert(cur < nx < old.len());
        lemma_walk_frozen(old, new, nr, nx, segs, i + 1, end, ps);
        let c = (walk(old, cur, segs, i, end, params)->0).0;
        assert(cur < c);
        assert(same_links(old[cur], new[cur]));
        if nx < c {
            assert(same_links(old[nx], new[nx]));
        }
        assert(param_name(new, nx) == param_name(old, nx));
        assert(step(new, cur, segs[i], params) == so);
    }
}

proof fn lemma_first_edge_range(edges: Seq<CompactRadixEdge>, seg: Seq<char>, k: int)
    requires
        0 <= k,
    ensures
        first_edge(edges, seg, k) matches Some(e) ==> (k <= e < edges.len() && edges[e].prefix@ == seg),
        first_edge(edges, seg, k) is None ==> forall|j: int| #![trigger edges[j]] k <= j < edges.len() ==> edges[j].prefix@ != seg,
    decreases edges.len() - k,
{
    if 0 <= k < edges.len() && edges[k].prefix@ != seg {
        lemma_first_edge_range(edges, seg, k + 1);
    }
}

/// How many of the first `n` nodes hold a route.
spec fn live_count(nodes: Seq<CompactRadixNode>, n: int) -> nat
    decreases n,
{
    if n <= 0 {
        0
    } else {
        live_count(nodes, n - 1) + if nodes[n - 1].route_index is Some { 1nat } else { 0nat }
    }
}

proof fn lemma_live_count_bound(nodes: Seq<CompactRadixNode>, n: int)
    requires
        0 <= n <= nodes.len(),
    ensures
        live_count(nodes, n) <= n,
        forall|j: int| 0 <= j < n && (#[trigger] nodes[j]).route_index is None ==> live_count(nodes, n) < n,
        forall|j: int| 0 <= j < n && (#[trigger] nodes[j]).route_index is Some ==> live_count(nodes, n) >= 1,
    decreases n,
{
    if n > 0 {
        lemma_live_count_bound(nodes, n - 1);
    }
}

/// Changing whether node `i` holds a route changes the count by one.
proof fn lemma_live_count_update(nodes: Seq<CompactRadixNode>, i: int, x: CompactRadixNode, n: int)
    requires
        0 <= i < nodes.len(),
        0 <= n <= nodes.len(),
    ensures
        live_count(nodes.update(i, x), n) + (if i < n && nodes[i].route_index is Some { 1int } else { 0int })
            == live_count(nodes, n) + (if i < n && x.route_index is Some { 1int } else { 0int }),
    decreases n,
{
    if n > 0 {
        lemma_live_count_update(nodes, i, x, n - 1);
    }
}

/// Nodes past position `m` that hold no route add nothing to the count.
proof fn lemma_live_count_tail(nodes: Seq<CompactRadixNode>, m: int, n: int)
    requires
        0 <= m <= n <= nodes.len(),
        forall|j: int| m <= j < n ==> (#[trigger] nodes[j]).route_index is None,
    ensures
        live_count(nodes, n) == live_count(nodes, m),
    decreases n - m,
{
    if n > m {
        lemma_live_count_tail(nodes, m, n - 1);
    }
}

/// Nodes that agree on holding a route count alike.
proof fn lemma_live_count_same(a: Seq<CompactRadixNode>, b: Seq<CompactRadixNode>, n: int)
    requires
        0 <= n <= a.len(),
        n <= b.len(),
        forall|j: int| 0 <= j < n ==> (#[trigger] a[j]).route_index is Some == b[j].route_index is Some,
    ensures
        live_count(a, n) == live_count(b, n),
    decreases n,
{
    if n > 0 {
        lemma_live_count_same(a, b, n - 1);
    }
}

/// Whether the node kind `nt` is the one that the segment `seg` asks for.
spec fn seg_fits(seg: Seq<char>, nt: RadixNodeType) -> bool {
    match nt {
        RadixNodeType::Static(s) => is_static_segment(seg) && s@ == seg,
        RadixNodeType::Parameter(_) => is_param_segment(seg),
        RadixNodeType::Wildcard => is_wildcard_segment(seg),
    }
}

/// The node that an insert goes to from `cur` for the segment `seg`, when the link already
/// exists: the literal edge keyed `seg`, or the parameter child for `{name}`, or the
/// wildcard child for `*`.
spec fn link(nodes: Seq<CompactRadixNode>, cur: int, seg: Seq<char>) -> Option<int> {
    if cur < 0 || cur >= nodes.len() {
        None
    } else if is_param_segment(seg) {
        match nodes[cur].param_child_index {
            Some(p) => Some(p as int),
            None => None,
        }
    } else if is_wildcard_segment(seg) {
        match nodes[cur].wildcard_child_index {
            Some(w) => Some(w as int),
            None => None,
        }
    } else {
        match first_edge(nodes[cur].children@, seg, 0) {
            Some(e) => Some(nodes[cur].children@[e].node_index as int),
            None => None,
        }
    }
}

/// Following the existing links of `segs[i..]` from `cur`: the node where they stop, and
/// the position of the first segment with no link (the length when all exist).
spec fn grow_point(nodes: Seq<CompactRadixNode>, cur: int, segs: Seq<Seq<char>>, i: int) -> (int, int)
    decreases segs.len() - i,
{
    if i < 0 || i >= segs.len() {
        (cur, i)
    } else {
        match link(nodes, cur, segs[i]) {
            Some(n) => grow_point(nodes, n, segs, i + 1),
            None => (cur, i),
        }
    }
}

proof fn lemma_grow_point_index(nodes: Seq<CompactRadixNode>, cur: int, segs: Seq<Seq<char>>, i: int)
    requires
        0 <= i <= segs.len(),
    ensures
        i <= grow_point(nodes, cur, segs, i).1 <= segs.len(),
    decreases segs.len() - i,
{
    if i < segs.len() {
        match link(nodes, cur, segs[i]) {
            Some(n) => lemma_grow_point_index(nodes, n, segs, i + 1),
            None => {},
        }
    }
}

proof fn lemma_grow_point_ge(nodes: Seq<CompactRadixNode>, nr: nat, cur: int, segs: Seq<Seq<char>>, i: int)
    requires
        0 <= i <= segs.len(),
        nodes_wf(nodes, nr),
        0 <= cur < nodes.len(),
    ensures
        i <= grow_point(nodes, cur, segs, i).1 <= segs.len(),
        grow_point(nodes, cur, segs, i).1 == i ==> grow_point(nodes, cur, segs, i).0 == cur,
        0 <= grow_point(nodes, cur, segs, i).0 < nodes.len(),
    decreases segs.len() - i,
{
    if i < segs.len() {
        assert(links_wf(nodes, cur));
        lemma_first_edge_range(nodes[cur].children@, segs[i], 0);
        match link(nodes, cur, segs[i]) {
            Some(n) => {
                match first_edge(nodes[cur].children@, segs[i], 0) {
                    Some(e) => { assert(nodes[cur].children@[e] == nodes[cur].children@[e]); },
                    None => {},
                }
                lemma_grow_point_ge(nodes, nr, n, segs, i + 1);
            },
            None => {},
        }
    }
}

/// Whether the link that an insert adds at `g` for the segment `pseg` takes the segment
/// `s` of a lookup: a new literal edge takes its own key, a new parameter child every
/// segment without a literal edge, a new wildcard child every segment without a literal
/// edge or a parameter child.
spec fn caught(nodes: Seq<CompactRadixNode>, g: int, s: Seq<char>, pseg: Seq<char>) -> bool {
    if is_param_segment(pseg) {
        first_edge(nodes[g].children@, s, 0) is None
    } else if is_wildcard_segment(pseg) {
        first_edge(nodes[g].children@, s, 0) is None && nodes[g].param_child_index is None
    } else {
        s == pseg
    }
}

/// `new` is `pre` with one link for the segment `pseg` added at node `g` (and maybe more
/// nodes after the old ones).
spec fn grew(pre: Seq<CompactRadixNode>, new: Seq<CompactRadixNode>, g: int, pseg: Seq<char>) -> bool {
    let a = pre[g];
    let b = new[g];
    &&& pre.len() <= new.len()
    &&& 0 <= g < pre.len()
    &&& forall|j: int| #![trigger new[j]] 0 <= j < pre.len() && j != g ==> new[j] == pre[j]
    &&& b.node_type == a.node_type
    &&& b.route_index == a.route_index
    &&& if is_param_segment(pseg) {
        &&& b.children@ == a.children@
        &&& b.wildcard_child_index == a.wildcard_child_index
        &&& a.param_child_index is None
    } else if is_wildcard_segment(pseg) {
        &&& b.children@ == a.children@
        &&& b.param_child_index == a.param_child_index
        &&& a.wildcard_child_index is None
    } else {
        &&& b.children@.len() == a.children@.len() + 1
        &&& forall|k: int| #![trigger b.children@[k]] 0 <= k < a.children@.len() ==> b.children@[k] == a.children@[k]
        &&& b.children@[a.children@.len() as int].prefix@ == pseg
        &&& b.param_child_index == a.param_child_index
        &&& b.wildcard_child_index == a.wildcard_child_index
    }
}

proof fn lemma_first_edge_push_other(edges: Seq<CompactRadixEdge>, e: CompactRadixEdge, seg: Seq<char>, k: int)
    requires
        0 <= k <= edges.len(),
        e.prefix@ != seg,
    ensures
        first_edge(edges.push(e), seg, k) == first_edge(edges, seg, k),
    decreases edges.len() - k,
{
    if k < edges.len() {
        assert(edges.push(e)[k] == edges[k]);
        lemma_first_edge_push_other(edges, e, seg, k + 1);
    } else {
        assert(edges.push(e)[k] == e);
        assert(first_edge(edges.push(e), seg, k + 1) is None);
    }
}

/// A lookup that does not take the link an insert added at `g` walks the grown nodes as it
/// walked the old ones, among the old nodes.
proof fn lemma_grow_walk(pre: Seq<CompactRadixNode>, new: Seq<CompactRadixNode>, nr: nat, g: int, grown: bool,
    pseg: Seq<char>, sq: Seq<Seq<char>>, j: int)
    requires
        nodes_wf(pre, nr),
        0 <= g < pre.len(),
        grown ==> grew(pre, new, g, pseg),
        !grown ==> new == pre,
        0 <= j <= sq.len(),
        forall|k: int| #![trigger walk(pre, 0, sq, 0, k, Seq::empty())] 0 <= k < j && grown
            && (walk(pre, 0, sq, 0, k, Seq::empty()) matches Some((m, _)) && m == g)
            ==> !caught(pre, g, sq[k], pseg),
    ensures
        walk(new, 0, sq, 0, j, Seq::empty()) == walk(pre, 0, sq, 0, j, Seq::empty()),
        walk(pre, 0, sq, 0, j, Seq::empty()) matches Some((m, _)) ==> 0 <= m < pre.len(),
    decreases j,
{
    if j == 0 {
        assert(walk(pre, 0, sq, 0, 0, Seq::empty()) == Some((0int, Seq::<(Seq<char>, Seq<char>)>::empty())));
        assert(walk(new, 0, sq, 0, 0, Seq::empty()) == Some((0int, Seq::<(Seq<char>, Seq<char>)>::empty())));
    } else {
        lemma_grow_walk(pre, new, nr, g, grown, pseg, sq, j - 1);
        match walk(pre, 0, sq, 0, j - 1, Seq::empty()) {
            Some((m, ps)) => {
                lemma_walk_snoc(pre, 0, sq, 0, j - 1, Seq::empty());
                lemma_walk_snoc(new, 0, sq, 0, j - 1, Seq::empty());
                let s = sq[j - 1];
                assert(links_wf(pre, m));
                if grown {
                    assert(new[m].node_type == pre[m].node_type);
                    let a = pre[m];
                    let b = new[m];
                    if m == g {
                        assert(!caught(pre, g, s, pseg));
                        if !is_param_segment(pseg) && !is_wildcard_segment(pseg) {
                            assert(b.children@ =~= a.children@.push(b.children@[a.children@.len() as int]));
                            lemma_first_edge_push_other(a.children@, b.children@[a.children@.len() as int], s, 0);
                        }
                    } else {
                        assert(new[m] == pre[m]);
                    }
                    assert(first_edge(b.children@, s, 0) == first_edge(a.children@, s, 0));
                    match first_edge(a.children@, s, 0) {
                        Some(e) => {
                            lemma_first_edge_range(a.children@, s, 0);
                            assert(b.children@[e] == a.children@[e]);
                        },
                        None => {},
                    }
                    match step_node(pre, m, s) {
                        Some(n) => {
                            assert(0 <= n < pre.len());
                            if n != g {
                                assert(new[n] == pre[n]);
                            }
                            assert(param_name(new, n) == param_name(pre, n));
                        },
                        None => {},
                    }
                    assert(step_node(new, m, s) == step_node(pre, m, s));
                    assert(step(new, m, s, ps) == step(pre, m, s, ps));
                } else {
                    lemma_first_edge_range(pre[m].children@, s, 0);
                    match first_edge(pre[m].children@, s, 0) {
                        Some(e) => { assert(pre[m].children@[e] == pre[m].children@[e]); },
                        None => {},
                    }
                    match step_node(pre, m, s) {
                        Some(n) => { assert(0 <= n < pre.len()); },
                        None => {},
                    }
                }
            },
            None => {
                lemma_walk_none(pre, 0, sq, 0, j - 1, j, Seq::empty());
                lemma_walk_none(new, 0, sq, 0, j - 1, j, Seq::empty());
            },
        }
    }
}

/// The `k`-th link of the chain that storing `segs` into an empty tree builds: node `k`
/// leads to node `k + 1` by a literal edge keyed `segs[k]`, or, for a parameter segment, by
/// its parameter child, named as the segment names it.
spec fn chain_link(nodes: Seq<CompactRadixNode>, segs: Seq<Seq<char>>, k: int) -> bool {
    let node = nodes[k];
    &&& node.wildcard_child_index is None
    &&& node.route_index is None
    &&& if is_param_segment(segs[k]) {
        &&& node.children@.len() == 0
        &&& node.param_child_index matches Some(p) && p == k + 1
        &&& param_name(nodes, k + 1) == param_name_of(segs[k])
    } else {
        &&& node.children@.len() == 1
        &&& node.children@[0].prefix@ == segs[k]
        &&& node.children@[0].node_index == k + 1
        &&& node.param_child_index is None
    }
}

/// `nodes` is the chain for the first `n` segments of `segs`: nodes `0..n` linked one to the
/// next, and node `n` without links.
spec fn is_chain(nodes: Seq<CompactRadixNode>, segs: Seq<Seq<char>>, n: int) -> bool {
    &&& 0 <= n <= segs.len()
    &&& nodes.len() == n + 1
    &&& forall|k: int| #![trigger nodes[k]] 0 <= k < n ==> chain_link(nodes, segs, k)
    &&& no_links(nodes[n])
}

/// A walk along the whole chain for `sg` reaches its last node exactly for the paths that
/// match `sg`, capturing their parameter segments; any other walk ends earlier or fails.
proof fn lemma_chain_walk(nodes: Seq<CompactRadixNode>, sg: Seq<Seq<char>>, sq: Seq<Seq<char>>, k: int,
    ps: Seq<(Seq<char>, Seq<char>)>)
    requires
        is_chain(nodes, sg, sg.len() as int),
        0 <= k <= sg.len(),
        k <= sq.len(),
    ensures
        matches_from(sg, sq, k) ==> walk(nodes, k, sq, k, sq.len() as int, ps)
            == Some((sg.len() as int, ps + captures_from(sg, sq, k))),
        !matches_from(sg, sq, k) ==> (walk(nodes, k, sq, k, sq.len() as int, ps) matches Some((m, _))
            ==> 0 <= m < sg.len()),
    decreases sg.len() - k,
{
    let n = sg.len() as int;
    if k == n {
        if sq.len() == n {
            assert(ps + captures_from(sg, sq, k) =~= ps);
        } else {
            assert(first_edge(nodes[n].children@, sq[k], 0) is None);
            assert(step_node(nodes, n, sq[k]) is None);
        }
    } else if k == sq.len() {
    } else {
        assert(chain_link(nodes, sg, k));
        lemma_matches_step(sg, sq, k);
        let node = nodes[k];
        if is_param_segment(sg[k]) {
            assert(first_edge(node.children@, sq[k], 0) is None);
            let ps2 = ps.push((param_name_of(sg[k]), sq[k]));
            assert(step(nodes, k, sq[k], ps) == Some((k + 1, ps2)));
            lemma_chain_walk(nodes, sg, sq, k + 1, ps2);
            assert(ps2 + captures_from(sg, sq, k + 1) =~= ps + captures_from(sg, sq, k));
        } else if sq[k] == sg[k] {
            assert(first_edge(node.children@, sq[k], 0) == Some(0int));
            assert(step(nodes, k, sq[k], ps) == Some((k + 1, ps)));
            lemma_chain_walk(nodes, sg, sq, k + 1, ps);
        } else {
            assert(first_edge(node.children@, sq[k], 1) is None);
            assert(first_edge(node.children@, sq[k], 0) is None);
            assert(step_node(nodes, k, sq[k]) is None);
        }
    }
}

/// The path that `list_paths` gives for the position named by the first `n` segments of
/// `segs`: each segment after a `/`, a parameter segment written `{param}`.
pub open spec fn listed_path(segs: Seq<Seq<char>>, n: int) -> Seq<char>
    decreases n,
{
    if n <= 0 {
        Seq::empty()
    } else {
        listed_path(segs, n - 1) + seq!['/'] + if is_param_segment(segs[n - 1]) {
            seq!['{', 'p', 'a', 'r', 'a', 'm', '}']
        } else {
            segs[n - 1]
        }
    }
}

/// On the chain for `sg` with a route at its last node only, listing from node `k` gives
/// the one path of that route.
proof fn lemma_chain_collect(nodes: Seq<CompactRadixNode>, sg: Seq<Seq<char>>, k: int)
    requires
        is_chain(nodes, sg, sg.len() as int),
        nodes[sg.len() as int].route_index is Some,
        0 <= k <= sg.len(),
    ensures
        collect(nodes, k, listed_path(sg, k)) == seq![listed_path(sg, sg.len() as int)],
    decreases sg.len() - k,
{
    let n = sg.len() as int;
    let prefix = listed_path(sg, k);
    if k == n {
        assert(collect_edges(nodes, k, prefix, 0) == Seq::<Seq<char>>::empty());
        assert(collect(nodes, k, prefix) =~= seq![prefix]);
    } else {
        assert(chain_link(nodes, sg, k));
        lemma_chain_collect(nodes, sg, k + 1);
        assert(collect_edges(nodes, k, prefix, 0) == Seq::<Seq<char>>::empty());
        if is_param_segment(sg[k]) {
            assert(prefix + seq!['/', '{', 'p', 'a', 'r', 'a', 'm', '}'] =~= listed_path(sg, k + 1));
            assert(collect(nodes, k, prefix) =~= collect(nodes, k + 1, listed_path(sg, k + 1)));
        } else {
            let e = nodes[k].children@[0];
            assert(prefix + seq!['/'] + e.prefix@ =~= listed_path(sg, k + 1));
            assert(collect_edges(nodes, k, prefix, 1) =~= collect(nodes, k + 1, listed_path(sg, k + 1)));
            assert(collect(nodes, k, prefix) =~= collect(nodes, k + 1, listed_path(sg, k + 1)));
        }
    }
}

/// Extending a walk by one more step.
proof fn lemma_walk_snoc(nodes: Seq<CompactRadixNode>, cur: int, segs: Seq<Seq<char>>, i: int, end: int,
    params: Seq<(Seq<char>, Seq<char>)>)
    requires
        i <= end,
        walk(nodes, cur, segs, i, end, params) is Some,
    ensures
        walk(nodes, cur, segs, i, end + 1, params) == ({
            let (c, ps) = walk(nodes, cur, segs, i, end, params)->0;
            step(nodes, c, segs[end], ps)
        }),
    decreases end - i,
{
    if i < end {
        let (nx, ps) = step(nodes, cur, segs[i], params)->0;
        lemma_walk_snoc(nodes, nx, segs, i + 1, end, ps);
    } else {
        let (c, ps) = walk(nodes, cur, segs, i, end, params)->0;
        match step(nodes, c, segs[end], ps) {
            Some((n2, ps2)) => { assert(walk(nodes, n2, segs, end + 1, end + 1, ps2) == Some((n2, ps2))); },
            None => {},
        }
    }
}

proof fn lemma_first_edge_push(edges: Seq<CompactRadixEdge>, e: CompactRadixEdge, seg: Seq<char>, k: int)
    requires
        0 <= k <= edges.len(),
        first_edge(edges, seg, k) is None,
        e.prefix@ == seg,
    ensures
        first_edge(edges.push(e), seg, k) == Some(edges.len() as int),
    decreases edges.len() - k,
{
    if k < edges.len() {
        assert(edges.push(e)[k] == edges[k]);
        lemma_first_edge_push(edges, e, seg, k + 1);
    }
}

/// A walk that fails stays failed when more segments follow.
proof fn lemma_walk_none(nodes: Seq<CompactRadixNode>, cur: int, segs: Seq<Seq<char>>, i: int, end: int, end2: int,
    params: Seq<(Seq<char>, Seq<char>)>)
    requires
        end <= end2,
        walk(nodes, cur, segs, i, end, params) is None,
    ensures
        walk(nodes, cur, segs, i, end2, params) is None,
    decreases end - i,
{
    if i < end {
        match step(nodes, cur, segs[i], params) {
            Some((nx, ps)) => lemma_walk_none(nodes, nx, segs, i + 1, end, end2, ps),
            None => {},
        }
    }
}

/// Walks agree on two node sequences with the same links.
proof fn lemma_walk_same(old: Seq<CompactRadixNode>, new: Seq<CompactRadixNode>, nr: nat, cur: int,
    segs: Seq<Seq<char>>, i: int, end: int, params: Seq<(Seq<char>, Seq<char>)>)
    requires
        nodes_wf(old, nr),
        old.len() == new.len(),
        forall|j: int| 0 <= j < old.len() ==> #[trigger] same_links(old[j], new[j]),
    ensures
        walk(new, cur, segs, i, end, params) == walk(old, cur, segs, i, end, params),
    decreases end - i,
{
    if i < end {
        if 0 <= cur < old.len() {
            assert(same_links(old[cur], new[cur]));
            assert(links_wf(old, cur));
            match first_edge(old[cur].children@, segs[i], 0) {
                Some(e) => { lemma_first_edge_range(old[cur].children@, segs[i], 0); },
                None => {},
            }
            match step_node(old, cur, segs[i]) {
                Some(n) => {
                    assert(0 <= n < old.len());
                    assert(same_links(old[n], new[n]));
                },
                None => {},
            }
        }
        assert(step(new, cur, segs[i], params) == step(old, cur, segs[i], params));
        match step(old, cur, segs[i], params) {
            Some((nx, ps)) => lemma_walk_same(old, new, nr, nx, segs, i + 1, end, ps),
            None => {},
        }
    }
}

/// The path of a route at node `idx`, if it has one.
spec fn own_part(nodes: Seq<CompactRadixNode>, idx: int, prefix: Seq<char>) -> Seq<Seq<char>> {
    if nodes[idx].route_index is Some { seq![prefix] } else { Seq::empty() }
}

/// Paths of the routes at and below node `idx`, whose own path is `prefix`, depth first.
spec fn collect(nodes: Seq<CompactRadixNode>, idx: int, prefix: Seq<char>) -> Seq<Seq<char>>
    decreases nodes.len() - idx, 1int, 0int,
{
    if 0 <= idx < nodes.len() {
        own_part(nodes, idx, prefix)
            + collect_edges(nodes, idx, prefix, nodes[idx].children@.len() as int)
            + param_part(nodes, idx, prefix)
            + wildcard_part(nodes, idx, prefix)
    } else {
        Seq::empty()
    }
}

/// Paths below the first `k` literal edges of node `idx`.
spec fn collect_edges(nodes: Seq<CompactRadixNode>, idx: int, prefix: Seq<char>, k: int) -> Seq<Seq<char>>
    decreases nodes.len() - idx, 0int, k,
{
    if 0 <= idx < nodes.len() && 0 < k <= nodes[idx].children@.len() {
        let e = nodes[idx].children@[k - 1];
        collect_edges(nodes, idx, prefix, k - 1) + if idx < e.node_index < nodes.len() {
            collect(nodes, e.node_index as int, prefix + seq!['/'] + e.prefix@)
        } else {
            Seq::empty()
        }
    } else {
        Seq::empty()
    }
}

/// Paths below the parameter child of node `idx`.
spec fn param_part(nodes: Seq<CompactRadixNode>, idx: int, prefix: Seq<char>) -> Seq<Seq<char>>
    decreases nodes.len() - idx, 0int, 0int,
{
    if 0 <= idx < nodes.len() {
        match nodes[idx].param_child_index {
            Some(p) => if idx < p < nodes.len() {
                collect(nodes, p as int, prefix + seq!['/', '{', 'p', 'a', 'r', 'a', 'm', '}'])
            } else {
                Seq::empty()
            },
            None => Seq::empty(),
        }
    } else {
        Seq::empty()
    }
}

/// Paths below the wildcard child of node `idx`.
spec fn wildcard_part(nodes: Seq<CompactRadixNode>, idx: int, prefix: Seq<char>) -> Seq<Seq<char>>
    decreases nodes.len() - idx, 0int, 0int,
{
    if 0 <= idx < nodes.len() {
        match nodes[idx].wildcard_child_index {
            Some(w) => if idx < w < nodes.len() {
                collect(nodes, w as int, prefix + seq!['/', '*'])
            } else {
                Seq::empty()
            },
            None => Seq::empty(),
        }
    } else {
        Seq::empty()
    }
}

/// The radix tree: nodes and routes in flat vectors, node 0 the root.
#[derive(Debug)]
pub struct CompactRadixTree<R> {
    nodes: Vec<CompactRadixNode>,
    routes: Vec<R>,
    root_index: usize,
}

/// The captured parameter pairs, as character sequences.
pub open spec fn pairs_view(v: Seq<(String, String)>) -> Seq<(Seq<char>, Seq<char>)> {
    v.map_values(|e: (String, String)| (e.0@, e.1@))
}

/// The position of the first edge whose prefix is `seg`.
fn first_edge_index(edges: &Vec<CompactRadixEdge>, seg: &str) -> (r: Option<usize>)
    ensures
        r matches Some(k) ==> first_edge(edges@, seg@, 0) == Some(k as int),
        r is None ==> first_edge(edges@, seg@, 0) is None,
{
    let mut k: usize = 0;
    while k < edges.len()
        invariant
            k <= edges@.len(),
            first_edge(edges@, seg@, 0) == first_edge(edges@, seg@, k as int),
        decreases edges@.len() - k,
    {
        if str_eq(edges[k].prefix.as_str(), seg) {
            return Some(k);
        }
        k = k + 1;
    }
    None
}

impl<R> CompactRadixTree<R> {
    /// The tree's internal invariant.
    pub closed spec fn wf(&self) -> bool {
        &&& self.root_index == 0
        &&& self.nodes@.len() > 0
        &&& nodes_wf(self.nodes@, self.routes@.len())
    }

    /// The node a lookup of `path` reaches, if any.
    pub closed spec fn node_of(&self, path: Seq<char>) -> Option<int> {
        let segs = segments(path);
        match walk(self.nodes@, self.root_index as int, segs, 0, segs.len() as int, Seq::empty()) {
            Some((n, _)) => Some(n),
            None => None,
        }
    }

    /// What a lookup of `path` finds: the route stored at the node it reaches, and the
    /// parameters captured on the way.
    pub closed spec fn lookup(&self, path: Seq<char>) -> Option<(R, Seq<(Seq<char>, Seq<char>)>)> {
        let segs = segments(path);
        match walk(self.nodes@, self.root_index as int, segs, 0, segs.len() as int, Seq::empty()) {
            Some((n, ps)) => if 0 <= n < self.nodes@.len() {
                match self.nodes@[n].route_index {
                    Some(ri) => if ri < self.routes@.len() {
                        Some((self.routes@[ri as int], ps))
                    } else {
                        None
                    },
                    None => None,
                }
            } else {
                None
            },
            None => None,
        }
    }

    /// The routes stored so far, in the order they were inserted.
    pub closed spec fn stored(&self) -> Seq<R> {
        self.routes@
    }

    /// The number of routes the tree holds (nodes with a route).
    pub closed spec fn route_count(&self) -> nat {
        live_count(self.nodes@, self.nodes@.len() as int)
    }

    /// Whether storing a route for `path` would replace one: the links of `path` all exist
    /// and the node they lead to holds a route.
    pub closed spec fn holds_route_for(&self, path: Seq<char>) -> bool {
        let sg = segments(path);
        let gd = grow_point(self.nodes@, 0, sg, 0);
        gd.1 == sg.len() && 0 <= gd.0 < self.nodes@.len() && self.nodes@[gd.0].route_index is Some
    }

    /// The tree is a bare root: no node below it and no route on it.
    pub closed spec fn is_fresh(&self) -> bool {
        &&& self.nodes@.len() == 1
        &&& self.root_index == 0
        &&& no_links(self.nodes@[0])
        &&& self.nodes@[0].route_index is None
    }

    /// Whether storing a route for `path` can change what a lookup of `q` finds. Following
    /// the links that `path` already has from the root stops at some node; the insert adds
    /// one link there (or, when all links exist, sets that node's route). The lookup of `q`
    /// is affected only if its walk reaches that node and leaves it by the added link, or
    /// ends there when no link is added.
    pub closed spec fn insert_reaches(&self, path: Seq<char>, q: Seq<char>) -> bool {
        let sg = segments(path);
        let sq = segments(q);
        let gd = grow_point(self.nodes@, 0, sg, 0);
        exists|j: int| 0 <= j <= sq.len()
            && (#[trigger] walk(self.nodes@, 0, sq, 0, j, Seq::empty()) matches Some((m, _)) && m == gd.0)
            && if gd.1 < sg.len() { j < sq.len() && caught(self.nodes@, gd.0, sq[j], sg[gd.1]) } else { j == sq.len() }
    }

    /// A bare root lists no path.
    proof fn lemma_fresh_paths(&self)
        requires
            self.is_fresh(),
        ensures
            self.paths() == Seq::<Seq<char>>::empty(),
    {
        assert(collect_edges(self.nodes@, 0, Seq::empty(), 0) == Seq::<Seq<char>>::empty());
        assert(self.paths() =~= Seq::<Seq<char>>::empty());
    }

    /// A bare root finds nothing.
    proof fn lemma_fresh_lookup(&self, p: Seq<char>)
        requires
            self.is_fresh(),
        ensures
            self.lookup(p) is None,
    {
        let segs = segments(p);
        if segs.len() > 0 {
            assert(first_edge(self.nodes@[0].children@, segs[0], 0) is None);
            assert(step(self.nodes@, 0, segs[0], Seq::empty()) is None);
        }
    }

    /// An empty tree: the root alone.
    pub fn new() -> (t: Self)
        ensures
            t.wf(),
            t.stored() == Seq::<R>::empty(),
            forall|p: Seq<char>| #[trigger] t.lookup(p) is None,
            t.paths() == Seq::<Seq<char>>::empty(),
            t.is_fresh(),
            t.route_count() == 0,
    {
        let mut nodes: Vec<CompactRadixNode> = Vec::new();
        let root_index = nodes.len();
        nodes.push(CompactRadixNode::new(RadixNodeType::Static(String::new())));
        let t = CompactRadixTree { nodes, routes: Vec::new(), root_index };
        assert forall|p: Seq<char>| #[trigger] t.lookup(p) is None by {
            let segs = segments(p);
            if segs.len() > 0 {
                assert(first_edge(t.nodes@[0].children@, segs[0], 0) is None);
                assert(step(t.nodes@, 0, segs[0], Seq::empty()) is None);
            }
        }
        assert(collect_edges(t.nodes@, 0, Seq::empty(), 0) == Seq::<Seq<char>>::empty());
        assert(t.paths() =~= Seq::<Seq<char>>::empty());
        assert(live_count(t.nodes@, 0) == 0);
        assert(live_count(t.nodes@, 1) == 0);
        t
    }

    /// The child of `parent_index` for `node_type`, created if missing: the literal edge with
    /// that text, or the parameter child, or the wildcard child.
    fn find_or_create_child(&mut self, parent_index: usize, node_type: RadixNodeType) -> (r: usize)
        requires
            old(self).wf(),
            parent_index < old(self).nodes@.len(),
            node_type matches RadixNodeType::Static(s) ==> is_static_segment(s@),
        ensures
            final(self).wf(),
            final(self).routes@ == old(self).routes@,
            old(self).nodes@.len() <= final(self).nodes@.len(),
            parent_index < r < final(self).nodes@.len(),
            forall|j: int| 0 <= j < old(self).nodes@.len() && j != parent_index
                ==> #[trigger] final(self).nodes@[j] == old(self).nodes@[j],
            final(self).nodes@[parent_index as int].node_type == old(self).nodes@[parent_index as int].node_type,
            final(self).nodes@[parent_index as int].route_index == old(self).nodes@[parent_index as int].route_index,
            final(self).nodes@[parent_index as int].param_child_index is None
                ==> old(self).nodes@[parent_index as int].param_child_index is None,
            node_type matches RadixNodeType::Static(s) ==> step_node(final(self).nodes@, parent_index as int, s@) == Some(r as int)
                && !step_captures(final(self).nodes@, parent_index as int, s@),
            node_type is Parameter ==> forall|seg: Seq<char>| !is_static_segment(seg)
                ==> #[trigger] step_node(final(self).nodes@, parent_index as int, seg) == Some(r as int)
                    && step_captures(final(self).nodes@, parent_index as int, seg),
            node_type is Wildcard ==> forall|seg: Seq<char>| !is_static_segment(seg)
                && final(self).nodes@[parent_index as int].param_child_index is None
                ==> #[trigger] step_node(final(self).nodes@, parent_index as int, seg) == Some(r as int)
                    && !step_captures(final(self).nodes@, parent_index as int, seg),
            forall|seg: Seq<char>| seg_fits(seg, node_type) && #[trigger] link(old(self).nodes@, parent_index as int, seg) is Some
                ==> r == link(old(self).nodes@, parent_index as int, seg)->0 && final(self).nodes@ == old(self).nodes@,
            forall|seg: Seq<char>| seg_fits(seg, node_type) && #[trigger] link(old(self).nodes@, parent_index as int, seg) is None
                ==> r == old(self).nodes@.len() && final(self).nodes@.len() == old(self).nodes@.len() + 1
                    && grew(old(self).nodes@, final(self).nodes@, parent_index as int, seg)
                    && final(self).nodes@[r as int].route_index is None,
            no_links(old(self).nodes@[parent_index as int]) ==> {
                let pn = final(self).nodes@[parent_index as int];
                &&& r == old(self).nodes@.len()
                &&& final(self).nodes@.len() == old(self).nodes@.len() + 1
                &&& final(self).nodes@[r as int].is_bare()
                &&& (node_type matches RadixNodeType::Static(s) ==> pn.children@.len() == 1
                    && pn.children@[0].prefix == s && pn.children@[0].node_index == r
                    && pn.param_child_index is None && pn.wildcard_child_index is None)
                &&& (node_type is Parameter ==> pn.children@.len() == 0 && pn.param_child_index == Some(r)
                    && pn.wildcard_child_index is None && final(self).nodes@[r as int].node_type == node_type)
            },
    {
        let ghost old_nodes = self.nodes@;
        let ghost nr = self.routes@.len();
        proof {
            assert(links_wf(old_nodes, parent_index as int));
        }
        match node_type {
            RadixNodeType::Static(prefix) => {
                let e = first_edge_index(&self.nodes[parent_index].children, prefix.as_str());
                if let Some(k) = e {
                    proof { lemma_first_edge_range(old_nodes[parent_index as int].children@, prefix@, 0); }
                    return self.nodes[parent_index].children[k].node_index;
                }
                proof {
                    assert forall|seg: Seq<char>| seg_fits(seg, node_type) implies seg == prefix@ by {}
                }
                let new_index = self.nodes.len();
                self.nodes.push(CompactRadixNode::new(RadixNodeType::Static(prefix.clone())));
                let ghost mid = self.nodes@;
                self.nodes[parent_index].children.push(CompactRadixEdge { prefix, node_index: new_index });
                proof {
                    let ch = old_nodes[parent_index as int].children@;
                    let edge = CompactRadixEdge { prefix, node_index: new_index };
                    assert(self.nodes@[parent_index as int].children@ == ch.push(edge));
                    lemma_first_edge_push(ch, edge, prefix@, 0);
                    assert forall|j: int| #![trigger self.nodes@[j]] 0 <= j < old_nodes.len() && j != parent_index
                        implies self.nodes@[j] == old_nodes[j] by {}
                    assert forall|i: int| #![trigger self.nodes@[i]] 0 <= i < self.nodes@.len()
                        implies links_wf(self.nodes@, i)
                            && (self.nodes@[i].route_index matches Some(x) ==> x < nr) by {
                        if i < old_nodes.len() {
                            assert(links_wf(old_nodes, i));
                            if i == parent_index {
                                assert forall|k: int| #![trigger self.nodes@[i].children@[k]]
                                    0 <= k < self.nodes@[i].children@.len() implies {
                                        let e2 = self.nodes@[i].children@[k];
                                        &&& i < e2.node_index < self.nodes@.len()
                                        &&& is_static_segment(e2.prefix@)
                                        &&& self.nodes@[e2.node_index as int].node_type == RadixNodeType::Static(e2.prefix)
                                    } by {
                                    if k < ch.len() {
                                        assert(self.nodes@[i].children@[k] == ch[k]);
                                    }
                                }
                            }
                        }
                    }
                }
                new_index
            },
            RadixNodeType::Parameter(name) => {
                proof {
                    assert forall|seg: Seq<char>| !is_static_segment(seg)
                        implies #[trigger] first_edge(old_nodes[parent_index as int].children@, seg, 0) is None by {
                        lemma_first_edge_range(old_nodes[parent_index as int].children@, seg, 0);
                    }
                }
                if let Some(param_index) = self.nodes[parent_index].param_child_index {
                    return param_index;
                }
                let new_index = self.nodes.len();
                self.nodes.push(CompactRadixNode::new(RadixNodeType::Parameter(name)));
                self.nodes[parent_index].param_child_index = Some(new_index);
                proof {
                    assert forall|i: int| #![trigger self.nodes@[i]] 0 <= i < self.nodes@.len()
                        implies links_wf(self.nodes@, i)
                            && (self.nodes@[i].route_index matches Some(x) ==> x < nr) by {
                        if i < old_nodes.len() {
                            assert(links_wf(old_nodes, i));
                        }
                    }
                }
                new_index
            },
            RadixNodeType::Wildcard => {
                proof {
                    assert forall|seg: Seq<char>| !is_static_segment(seg)
                        implies #[trigger] first_edge(old_nodes[parent_index as int].children@, seg, 0) is None by {
                        lemma_first_edge_range(old_nodes[parent_index as int].children@, seg, 0);
                    }
                }
                if let Some(wildcard_index) = self.nodes[parent_index].wildcard_child_index {
                    return wildcard_index;
                }
                let new_index = self.nodes.len();
                self.nodes.push(CompactRadixNode::new(RadixNodeType::Wildcard));
                self.nodes[parent_index].wildcard_child_index = Some(new_index);
                proof {
                    assert forall|i: int| #![trigger self.nodes@[i]] 0 <= i < self.nodes@.len()
                        implies links_wf(self.nodes@, i)
                            && (self.nodes@[i].route_index matches Some(x) ==> x < nr) by {
                        if i < old_nodes.len() {
                            assert(links_wf(old_nodes, i));
                        }
                    }
                }
                new_index
            },
        }
    }

    /// Stores `route` for `path`: follows (and creates where missing) the node of each segment
    /// from the root, and sets the route of the last one.
    pub fn insert(&mut self, path: &str, route: R)
        requires
            old(self).wf(),
        ensures
            final(self).wf(),
            final(self).stored() == old(self).stored().push(route),
            no_wildcard(segments(path@)) ==> (final(self).lookup(path@) matches Some((x, _)) && x == route),
            all_static(segments(path@)) ==> final(self).lookup(path@) == Some((route, Seq::<(Seq<char>, Seq<char>)>::empty())),
            old(self).is_fresh() && no_wildcard(segments(path@)) ==> forall|q: Seq<char>| #[trigger] final(self).lookup(q) == (
                if matches_from(segments(path@), segments(q), 0) {
                    Some((route, captures_from(segments(path@), segments(q), 0)))
                } else {
                    None
                }),
            old(self).is_fresh() && no_wildcard(segments(path@))
                ==> final(self).paths() == seq![listed_path(segments(path@), segments(path@).len() as int)],
            forall|q: Seq<char>| !old(self).insert_reaches(path@, q) ==> #[trigger] final(self).lookup(q) == old(self).lookup(q),
            final(self).route_count() == old(self).route_count() + if old(self).holds_route_for(path@) { 0int } else { 1int },
    {
        let _ = self.insert_route(path, route);
    }

    /// `insert`, telling whether a route was replaced.
    pub(crate) fn insert_route(&mut self, path: &str, route: R) -> (replaced: bool)
        requires
            old(self).wf(),
        ensures
            final(self).wf(),
            final(self).stored() == old(self).stored().push(route),
            no_wildcard(segments(path@)) ==> (final(self).lookup(path@) matches Some((x, _)) && x == route),
            all_static(segments(path@)) ==> final(self).lookup(path@) == Some((route, Seq::<(Seq<char>, Seq<char>)>::empty())),
            old(self).is_fresh() && no_wildcard(segments(path@)) ==> forall|q: Seq<char>| #[trigger] final(self).lookup(q) == (
                if matches_from(segments(path@), segments(q), 0) {
                    Some((route, captures_from(segments(path@), segments(q), 0)))
                } else {
                    None
                }),
            old(self).is_fresh() && no_wildcard(segments(path@))
                ==> final(self).paths() == seq![listed_path(segments(path@), segments(path@).len() as int)],
            forall|q: Seq<char>| !old(self).insert_reaches(path@, q) ==> #[trigger] final(self).lookup(q) == old(self).lookup(q),
            replaced == old(self).holds_route_for(path@),
            final(self).route_count() == old(self).route_count() + if replaced { 0int } else { 1int },
    {
        let ghost fresh = self.is_fresh();
        let ghost pre = self.nodes@;
        let route_index = self.routes.len();
        self.routes.push(route);
        let ghost nr = self.routes@.len();
        proof {
            assert forall|i: int| #![trigger self.nodes@[i]] 0 <= i < self.nodes@.len()
                implies links_wf(self.nodes@, i)
                    && (self.nodes@[i].route_index matches Some(x) ==> x < nr) by {
                assert(links_wf(self.nodes@, i));
            }
        }
        let segs = split_segment_slices(path);
        let ghost sg = segments(path@);
        let mut current: usize = self.root_index;
        let ghost mut ps: Seq<(Seq<char>, Seq<char>)> = Seq::empty();
        let ghost gd = grow_point(pre, 0, sg, 0);
        let ghost g = gd.0;
        let ghost d = gd.1;
        proof {
            lemma_grow_point_ge(pre, old(self).routes@.len(), 0, sg, 0);
        }
        let mut i: usize = 0;
        while i < segs.len()
            invariant
                pre == old(self).nodes@,
                nodes_wf(pre, old(self).routes@.len()),
                gd == grow_point(pre, 0, sg, 0),
                g == gd.0,
                d == gd.1,
                0 <= d <= sg.len(),
                0 <= g < pre.len(),
                i <= d ==> self.nodes@ == pre && grow_point(pre, current as int, sg, i as int) == gd,
                i > d ==> grew(pre, self.nodes@, g, sg[d]) && current >= pre.len(),
                forall|j: int| #![trigger self.nodes@[j]] pre.len() <= j < self.nodes@.len() ==> self.nodes@[j].route_index is None,
                self.wf(),
                self.routes@ == old(self).routes@.push(route),
                route_index == old(self).routes@.len(),
                nr == self.routes@.len(),
                sg == segments(path@),
                segs@.len() == sg.len(),
                forall|k: int| 0 <= k < segs@.len() ==> #[trigger] segs@[k]@ == sg[k],
                i <= segs@.len(),
                current < self.nodes@.len(),
                no_wildcard_upto(sg, i as int) ==> walk(self.nodes@, 0, sg, 0, i as int, Seq::empty()) == Some((current as int, ps)),
                all_static_upto(sg, i as int) ==> ps == Seq::<(Seq<char>, Seq<char>)>::empty(),
                fresh && no_wildcard_upto(sg, i as int) ==> current == i && is_chain(self.nodes@, sg, i as int)
                    && self.nodes@[i as int].route_index is None,
            decreases segs@.len() - i,
        {
            let segment = segs[i];
            let node_type = RadixNodeType::from_segment(segment);
            let ghost old_nodes = self.nodes@;
            let ghost nt = node_type;
            let ghost cur0 = current as int;
            proof {
                let seg = sg[i as int];
                assert(seg_fits(seg, nt));
                if i <= d {
                    lemma_grow_point_ge(pre, old(self).routes@.len(), cur0, sg, i as int);
                    if i < d {
                        assert(link(pre, cur0, seg) is Some);
                    } else {
                        assert(cur0 == g);
                        if link(pre, cur0, seg) is Some {
                            lemma_grow_point_index(pre, link(pre, cur0, seg)->0, sg, i + 1);
                            assert(false);
                        }
                    }
                }
            }
            let child = self.find_or_create_child(current, node_type);
            proof {
                let seg = sg[i as int];
                assert(seg_fits(seg, nt));
                if link(old_nodes, cur0, seg) is None {
                    assert(self.nodes@[child as int].route_index is None);
                }
                assert forall|j: int| #![trigger self.nodes@[j]] pre.len() <= j < self.nodes@.len()
                    implies self.nodes@[j].route_index is None by {
                    if j < old_nodes.len() {
                        if j != cur0 {
                            assert(self.nodes@[j] == old_nodes[j]);
                        }
                        assert(old_nodes[j].route_index is None);
                    } else {
                        assert(link(old_nodes, cur0, seg) is None);
                        assert(j == child);
                    }
                }
                if i > d {
                    let nn = self.nodes@;
                    assert forall|j: int| #![trigger nn[j]] 0 <= j < pre.len() && j != g implies nn[j] == pre[j] by {
                        assert(nn[j] == old_nodes[j]);
                    }
                    assert(nn[g] == old_nodes[g]);
                }
            }
            proof {
                if fresh && no_wildcard_upto(sg, i as int + 1) {
                    assert(no_wildcard_upto(sg, i as int));
                    let seg = sg[i as int];
                    assert(!is_wildcard_segment(seg));
                    let nn = self.nodes@;
                    assert(no_links(old_nodes[i as int]));
                    assert forall|k: int| #![trigger nn[k]] 0 <= k < i + 1 implies chain_link(nn, sg, k) by {
                        if k < i {
                            assert(nn[k] == old_nodes[k]);
                            assert(chain_link(old_nodes, sg, k));
                            if is_param_segment(sg[k]) {
                                if k + 1 < i {
                                    assert(nn[k + 1] == old_nodes[k + 1]);
                                }
                            }
                        } else {
                            if is_param_segment(seg) {
                                assert(nt is Parameter);
                            } else {
                                assert(is_static_segment(seg));
                            }
                        }
                    }
                }
            }
            proof {
                let seg = sg[i as int];
                if no_wildcard_upto(sg, i as int + 1) {
                    assert(no_wildcard_upto(sg, i as int));
                    assert forall|j: int| 0 <= j < current implies #[trigger] same_links(old_nodes[j], self.nodes@[j]) by {
                        assert(self.nodes@[j] == old_nodes[j]);
                    }
                    lemma_walk_frozen(old_nodes, self.nodes@, nr, 0, sg, 0, i as int, Seq::empty());
                    lemma_walk_snoc(self.nodes@, 0, sg, 0, i as int, Seq::empty());
                    assert(!is_wildcard_segment(seg));
                    if is_static_segment(seg) {
                        assert(step_node(self.nodes@, current as int, seg) == Some(child as int));
                    } else {
                        assert(step_node(self.nodes@, current as int, seg) == Some(child as int));
                    }
                    ps = (step(self.nodes@, current as int, seg, ps)->0).1;
                    assert(walk(self.nodes@, 0, sg, 0, i as int + 1, Seq::empty()) == Some((child as int, ps)));
                } else {
                    ps = (step(self.nodes@, current as int, seg, ps)->0).1;
                }
                if all_static_upto(sg, i as int + 1) {
                    assert(all_static_upto(sg, i as int));
                    assert(is_static_segment(seg));
                    assert(!step_captures(self.nodes@, current as int, seg));
                }
            }
            current = child;
            i = i + 1;
        }
        let ghost before = self.nodes@;
        let replaced = self.nodes[current].route_index.is_some();
        self.nodes[current].route_index = Some(route_index);
        proof {
            let grown2 = d < sg.len();
            if !grown2 {
                lemma_grow_point_ge(pre, old(self).routes@.len(), current as int, sg, i as int);
            }
            assert(self.nodes@ == before.update(current as int, self.nodes@[current as int]));
            lemma_live_count_update(before, current as int, self.nodes@[current as int], before.len() as int);
            lemma_live_count_tail(before, pre.len() as int, before.len() as int);
            assert forall|j: int| 0 <= j < pre.len() implies (#[trigger] before[j]).route_index is Some == pre[j].route_index is Some by {
                if grown2 && j != g {
                    assert(before[j] == pre[j]);
                }
            }
            lemma_live_count_same(before, pre, pre.len() as int);
        }
        proof {
            assert forall|j: int| #![trigger self.nodes@[j]] 0 <= j < self.nodes@.len()
                implies links_wf(self.nodes@, j)
                    && (self.nodes@[j].route_index matches Some(x) ==> x < nr) by {
                assert(links_wf(before, j));
                if j != current {
                    assert(self.nodes@[j] == before[j]);
                }
            }
            let grown = d < sg.len();
            if !grown {
                lemma_grow_point_ge(pre, old(self).routes@.len(), current as int, sg, i as int);
                assert(current == g);
            }
            assert forall|j: int| 0 <= j < before.len() implies #[trigger] same_links(before[j], self.nodes@[j]) by {
                if j != current {
                    assert(self.nodes@[j] == before[j]);
                }
            }
            assert forall|q: Seq<char>| !old(self).insert_reaches(path@, q)
                implies #[trigger] self.lookup(q) == old(self).lookup(q) by {
                let sq = segments(q);
                let pseg = if grown { sg[d] } else { Seq::<char>::empty() };
                assert forall|k: int| #![trigger walk(pre, 0, sq, 0, k, Seq::empty())] 0 <= k < sq.len() && grown
                    && (walk(pre, 0, sq, 0, k, Seq::empty()) matches Some((m, _)) && m == g)
                    implies !caught(pre, g, sq[k], pseg) by {
                    if caught(pre, g, sq[k], pseg) {
                        assert(old(self).insert_reaches(path@, q));
                    }
                }
                lemma_grow_walk(pre, before, old(self).routes@.len(), g, grown, pseg, sq, sq.len() as int);
                lemma_walk_same(before, self.nodes@, nr, 0, sq, 0, sq.len() as int, Seq::empty());
                match walk(pre, 0, sq, 0, sq.len() as int, Seq::empty()) {
                    Some((m, qps)) => {
                        assert(0 <= m < pre.len());
                        if !grown && m == g {
                            assert(old(self).insert_reaches(path@, q));
                        }
                        assert(m != current);
                        assert(self.nodes@[m] == before[m]);
                        if m != g {
                            assert(before[m] == pre[m]);
                        }
                        assert(self.nodes@[m].route_index == pre[m].route_index);
                        match pre[m].route_index {
                            Some(ri) => {
                                assert(ri < old(self).routes@.len());
                                assert(self.routes@[ri as int] == old(self).routes@[ri as int]);
                            },
                            None => {},
                        }
                    },
                    None => {},
                }
            }
            if no_wildcard(sg) {
                assert(no_wildcard_upto(sg, sg.len() as int));
                assert forall|j: int| 0 <= j < current implies #[trigger] same_links(before[j], self.nodes@[j]) by {
                    assert(self.nodes@[j] == before[j]);
                }
                lemma_walk_frozen(before, self.nodes@, nr, 0, sg, 0, sg.len() as int, Seq::empty());
            }
            if all_static(sg) {
                assert(all_static_upto(sg, sg.len() as int));
                assert(no_wildcard(sg));
            }
            if fresh && no_wildcard(sg) {
                assert(no_wildcard_upto(sg, sg.len() as int));
                let n = sg.len() as int;
                let nn = self.nodes@;
                assert forall|k: int| #![trigger nn[k]] 0 <= k < n implies chain_link(nn, sg, k) by {
                    assert(nn[k] == before[k]);
                    assert(chain_link(before, sg, k));
                    if k + 1 < n {
                        assert(nn[k + 1] == before[k + 1]);
                    }
                }
                assert(is_chain(nn, sg, n));
                lemma_chain_collect(nn, sg, 0);
                assert(listed_path(sg, 0) == Seq::<char>::empty());
                assert forall|q: Seq<char>| #[trigger] self.lookup(q) == (
                    if matches_from(sg, segments(q), 0) {
                        Some((route, captures_from(sg, segments(q), 0)))
                    } else {
                        None
                    }) by {
                    let sq = segments(q);
                    lemma_chain_walk(nn, sg, sq, 0, Seq::empty());
                    if matches_from(sg, sq, 0) {
                        assert(Seq::<(Seq<char>, Seq<char>)>::empty() + captures_from(sg, sq, 0) =~= captures_from(sg, sq, 0));
                    } else {
                        match walk(nn, 0, sq, 0, sq.len() as int, Seq::empty()) {
                            Some((m, _)) => {
                                assert(chain_link(nn, sg, m));
                            },
                            None => {},
                        }
                    }
                }
            }
        }
        replaced
    }

    /// Looks `path` up: the route stored at the node reached by its segments, with the
    /// parameters captured on the way.
    pub fn find(&self, path: &str) -> (r: Option<(&R, Vec<(String, String)>)>)
        requires
            self.wf(),
        ensures
            match self.lookup(path@) {
                Some((route, ps)) => r matches Some((x, v)) && *x == route && pairs_view(v@) == ps,
                None => r is None,
            },
    {
        let segs = split_segment_slices(path);
        let ghost sg = segments(path@);
        let mut current: usize = self.root_index;
        let mut params: Vec<(String, String)> = Vec::new();
        let mut i: usize = 0;
        assert(pairs_view(params@) =~= Seq::<(Seq<char>, Seq<char>)>::empty());
        while i < segs.len()
            invariant
                self.wf(),
                sg == segments(path@),
                segs@.len() == sg.len(),
                forall|k: int| 0 <= k < segs@.len() ==> #[trigger] segs@[k]@ == sg[k],
                i <= segs@.len(),
                current < self.nodes@.len(),
                walk(self.nodes@, 0, sg, 0, i as int, Seq::empty()) == Some((current as int, pairs_view(params@))),
            decreases segs@.len() - i,
        {
            let segment = segs[i];
            proof {
                lemma_walk_snoc(self.nodes@, 0, sg, 0, i as int, Seq::empty());
                assert(self.nodes@[current as int] == self.nodes@[current as int]);
                assert(links_wf(self.nodes@, current as int));
            }
            let node = &self.nodes[current];
            let old_current = current;
            let e = first_edge_index(&node.children, segment);
            match e {
                Some(k) => {
                    proof { lemma_first_edge_range(node.children@, sg[i as int], 0); }
                    current = node.children[k].node_index;
                    assert(step(self.nodes@, old_current as int, sg[i as int], pairs_view(params@))
                        == Some((current as int, pairs_view(params@))));
                },
                None => {
                    let mut found = false;
                    if let Some(param_index) = node.param_child_index {
                        if param_index < self.nodes.len() {
                            if let RadixNodeType::Parameter(name) = &self.nodes[param_index].node_type {
                                let ghost before = params@;
                                params.push((name.clone(), owned(segment)));
                                proof {
                                    assert(pairs_view(params@) =~= pairs_view(before).push((name@, segment@)));
                                }
                                current = param_index;
                                found = true;
                                assert(step_captures(self.nodes@, old_current as int, sg[i as int]));
                                assert(param_name(self.nodes@, param_index as int) == name@);
                            }
                        }
                    }
                    if !found {
                        assert(node.param_child_index is None);
                        if let Some(wildcard_index) = node.wildcard_child_index {
                            current = wildcard_index;
                            found = true;
                        }
                    }
                    if !found {
                        proof {
                            lemma_walk_none(self.nodes@, 0, sg, 0, i as int + 1, sg.len() as int, Seq::empty());
                        }
                        return None;
                    }
                },
            }
            i = i + 1;
        }
        let node = &self.nodes[current];
        if let Some(route_index) = node.route_index {
            if route_index < self.routes.len() {
                return Some((&self.routes[route_index], params));
            }
        }
        None
    }

    /// Whether a lookup of `path` finds a route.
    pub fn contains(&self, path: &str) -> (r: bool)
        requires
            self.wf(),
        ensures
            r == self.lookup(path@) is Some,
    {
        self.find(path).is_some()
    }

    /// Takes the route off the node that a lookup of `path` reaches; nodes are kept, and so is
    /// the route itself in the tree's store. Returns the route taken off, if there was one.
    pub fn remove(&mut self, path: &str) -> (r: Option<&R>)
        requires
            old(self).wf(),
        ensures
            final(self).wf(),
            match old(self).lookup(path@) {
                Some((route, _)) => r matches Some(x) && *x == route,
                None => r is None,
            },
            old(self).lookup(path@) is None ==> final(self).paths() == old(self).paths(),
            old(self).lookup(path@) is None ==> forall|q: Seq<char>| #[trigger] final(self).lookup(q) == old(self).lookup(q),
            final(self).route_count() + (if r is Some { 1int } else { 0int }) == old(self).route_count(),
            final(self).stored() == old(self).stored(),
            final(self).lookup(path@) is None,
            forall|q: Seq<char>| #[trigger] final(self).node_of(q) == old(self).node_of(q),
            forall|q: Seq<char>| #[trigger] final(self).lookup(q) == (
                if old(self).node_of(path@) is Some && old(self).node_of(q) == old(self).node_of(path@) {
                    None
                } else {
                    old(self).lookup(q)
                }),
    {
        let ghost pre = *self;
        let segs = split_segment_slices(path);
        let ghost sg = segments(path@);
        let mut current: usize = self.root_index;
        let ghost ps: Seq<(Seq<char>, Seq<char>)> = Seq::empty();
        let mut i: usize = 0;
        while i < segs.len()
            invariant
                self.wf(),
                sg == segments(path@),
                segs@.len() == sg.len(),
                forall|k: int| 0 <= k < segs@.len() ==> #[trigger] segs@[k]@ == sg[k],
                i <= segs@.len(),
                current < self.nodes@.len(),
                walk(self.nodes@, 0, sg, 0, i as int, Seq::empty()) matches Some((c, _)) && c == current,
            decreases segs@.len() - i,
        {
            let segment = segs[i];
            proof {
                lemma_walk_snoc(self.nodes@, 0, sg, 0, i as int, Seq::empty());
                assert(links_wf(self.nodes@, current as int));
            }
            let node = &self.nodes[current];
            let e = first_edge_index(&node.children, segment);
            match e {
                Some(k) => {
                    proof { lemma_first_edge_range(node.children@, sg[i as int], 0); }
                    current = node.children[k].node_index;
                },
                None => {
                    let mut found = false;
                    if let Some(param_index) = node.param_child_index {
                        current = param_index;
                        found = true;
                    }
                    if !found {
                        if let Some(wildcard_index) = node.wildcard_child_index {
                            current = wildcard_index;
                            found = true;
                        }
                    }
                    if !found {
                        proof {
                            lemma_walk_none(self.nodes@, 0, sg, 0, i as int + 1, sg.len() as int, Seq::empty());
                        }
                        return None;
                    }
                },
            }
            i = i + 1;
        }
        let ghost before = self.nodes@;
        assert(before == pre.nodes@);
        let taken = self.nodes[current].route_index;
        self.nodes[current].route_index = None;
        proof {
            assert(self.nodes@ == before.update(current as int, self.nodes@[current as int]));
            lemma_live_count_update(before, current as int, self.nodes@[current as int], before.len() as int);
            assert(links_wf(before, current as int));
            if taken is None {
                assert(self.nodes@ =~= before);
                assert forall|q: Seq<char>| #[trigger] self.lookup(q) == pre.lookup(q) by {
                    let sq = segments(q);
                    lemma_walk_same(before, self.nodes@, self.routes@.len(), 0, sq, 0, sq.len() as int, Seq::empty());
                }
            }
            assert forall|j: int| #![trigger self.nodes@[j]] 0 <= j < self.nodes@.len()
                implies links_wf(self.nodes@, j)
                    && (self.nodes@[j].route_index matches Some(x) ==> x < self.routes@.len()) by {
                assert(links_wf(before, j));
                if j != current {
                    assert(self.nodes@[j] == before[j]);
                }
            }
            assert forall|j: int| 0 <= j < before.len() implies #[trigger] same_links(before[j], self.nodes@[j]) by {
                if j != current {
                    assert(self.nodes@[j] == before[j]);
                }
            }
            assert forall|q: Seq<char>| #[trigger] self.node_of(q) == pre.node_of(q) by {
                let sq = segments(q);
                lemma_walk_same(before, self.nodes@, self.routes@.len(), 0, sq, 0, sq.len() as int, Seq::empty());
            }
            assert(pre.node_of(path@) == Some(current as int));
            assert forall|q: Seq<char>| #[trigger] self.lookup(q) == (
                if pre.node_of(path@) is Some && pre.node_of(q) == pre.node_of(path@) {
                    None
                } else {
                    pre.lookup(q)
                }) by {
                let sq = segments(q);
                lemma_walk_same(before, self.nodes@, self.routes@.len(), 0, sq, 0, sq.len() as int, Seq::empty());
                match walk(before, 0, sq, 0, sq.len() as int, Seq::empty()) {
                    Some((n, ps)) => {
                        if n != current {
                            if 0 <= n < before.len() {
                                assert(self.nodes@[n] == before[n]);
                            }
                        }
                    },
                    None => {},
                }
            }
        }
        match taken {
            Some(route_index) => if route_index < self.routes.len() { Some(&self.routes[route_index]) } else { None },
            None => None,
        }
    }

    /// Every route-carrying path in the tree, in depth-first order: a node's own path first,
    /// then its literal children in insertion order, then its parameter child (written
    /// `{param}`), then its wildcard child (`*`).
    pub closed spec fn paths(&self) -> Seq<Seq<char>> {
        collect(self.nodes@, self.root_index as int, Seq::empty())
    }

    /// The paths of all stored routes, as `paths` describes them.
    pub fn list_paths(&self) -> (r: Vec<String>)
        requires
            self.wf(),
        ensures
            strings_view(r@) == self.paths(),
    {
        let mut paths: Vec<String> = Vec::new();
        self.collect_paths(self.root_index, String::new(), &mut paths);
        assert(strings_view(paths@) =~= self.paths());
        paths
    }

    /// Appends to `paths` the paths of the routes at and below `node_index`, whose own path
    /// is `prefix`.
    fn collect_paths(&self, node_index: usize, prefix: String, paths: &mut Vec<String>)
        requires
            self.wf(),
            node_index < self.nodes@.len(),
        ensures
            strings_view(final(paths)@) == strings_view(old(paths)@) + collect(self.nodes@, node_index as int, prefix@),
        decreases self.nodes@.len() - node_index,
    {
        let ghost base = strings_view(paths@);
        let ghost nodes = self.nodes@;
        let ghost idx = node_index as int;
        let node = &self.nodes[node_index];
        proof {
            assert(links_wf(nodes, idx));
        }
        let ghost own: Seq<Seq<char>> = if node.route_index is Some { seq![prefix@] } else { Seq::empty() };
        if node.route_index.is_some() {
            paths.push(prefix.clone());
        }
        assert(strings_view(paths@) =~= base + own);
        let mut k: usize = 0;
        while k < node.children.len()
            invariant
                self.wf(),
                nodes == self.nodes@,
                idx == node_index,
                node_index < nodes.len(),
                *node == nodes[idx],
                links_wf(nodes, idx),
                k <= node.children@.len(),
                strings_view(paths@) == base + own + collect_edges(nodes, idx, prefix@, k as int),
            decreases node.children@.len() - k,
        {
            let edge = &node.children[k];
            let new_prefix = prefix.clone().concat("/").concat(edge.prefix.as_str());
            proof {
                reveal_strlit("/");
                assert(new_prefix@ == prefix@ + seq!['/'] + edge.prefix@);
            }
            let ghost mid = strings_view(paths@);
            self.collect_paths(edge.node_index, new_prefix, paths);
            proof {
                assert(collect_edges(nodes, idx, prefix@, k as int + 1)
                    == collect_edges(nodes, idx, prefix@, k as int) + collect(nodes, edge.node_index as int, new_prefix@));
                assert(strings_view(paths@) =~= base + own + collect_edges(nodes, idx, prefix@, k as int + 1));
            }
            k = k + 1;
        }
        let ghost after_edges = strings_view(paths@);
        if let Some(param_index) = node.param_child_index {
            let new_prefix = prefix.clone().concat("/{param}");
            proof {
                reveal_strlit("/{param}");
                assert(new_prefix@ =~= prefix@ + seq!['/', '{', 'p', 'a', 'r', 'a', 'm', '}']);
            }
            self.collect_paths(param_index, new_prefix, paths);
        }
        let ghost after_param = strings_view(paths@);
        assert(after_param =~= after_edges + param_part(nodes, idx, prefix@));
        if let Some(wildcard_index) = node.wildcard_child_index {
            let new_prefix = prefix.clone().concat("/*");
            proof {
                reveal_strlit("/*");
                assert(new_prefix@ =~= prefix@ + seq!['/', '*']);
            }
            self.collect_paths(wildcard_index, new_prefix, paths);
        }
        assert(strings_view(paths@) =~= after_param + wildcard_part(nodes, idx, prefix@));
        assert(collect(nodes, idx, prefix@) == own + collect_edges(nodes, idx, prefix@, nodes[idx].children@.len() as int)
            + param_part(nodes, idx, prefix@) + wildcard_part(nodes, idx, prefix@));
        assert(strings_view(paths@) =~= base + collect(nodes, idx, prefix@));
    }

    /// Empties the tree: only a bare root is left, and no route.
    pub fn clear(&mut self)
        ensures
            final(self).wf(),
            final(self).stored() == Seq::<R>::empty(),
            forall|p: Seq<char>| #[trigger] final(self).lookup(p) is None,
            final(self).paths() == Seq::<Seq<char>>::empty(),
            final(self).is_fresh(),
            final(self).route_count() == 0,
    {
        self.nodes.clear();
        self.routes.clear();
        let root_index = self.nodes.len();
        self.nodes.push(CompactRadixNode::new(RadixNodeType::Static(String::new())));
        self.root_index = root_index;
        proof {
            assert forall|p: Seq<char>| #[trigger] self.lookup(p) is None by {
                let segs = segments(p);
                if segs.len() > 0 {
                    assert(first_edge(self.nodes@[0].children@, segs[0], 0) is None);
                    assert(step(self.nodes@, 0, segs[0], Seq::empty()) is None);
                }
            }
            assert(collect_edges(self.nodes@, 0, Seq::empty(), 0) == Seq::<Seq<char>>::empty());
            assert(self.paths() =~= Seq::<Seq<char>>::empty());
            assert(live_count(self.nodes@, 0) == 0);
            assert(live_count(self.nodes@, 1) == 0);
        }
    }
}

impl<R> Default for CompactRadixTree<R> {
    fn default() -> (t: Self)
        ensures
            t.wf(),
            t.stored() == Seq::<R>::empty(),
            forall|p: Seq<char>| #[trigger] t.lookup(p) is None,
    {
        Self::new()
    }
}

/// A shard of a route table: a tree and the number of routes counted into it.
#[derive(Debug)]
pub struct CacheOptimizedShard<R> {
    inner: CompactRadixTree<R>,
    count: usize,
}

impl<R> CacheOptimizedShard<R> {
    /// The shard's internal invariant.
    pub closed spec fn wf(&self) -> bool {
        &&& self.inner.wf()
        &&& self.count == self.inner.route_count()
    }

    /// The shard's tree.
    pub closed spec fn tree(&self) -> CompactRadixTree<R> {
        self.inner
    }

    /// The shard's route counter: the number of routes its tree holds.
    pub closed spec fn counter(&self) -> usize {
        self.count
    }

    /// An empty shard.
    pub fn new() -> (r: Self)
        ensures
            r.wf(),
            r.counter() == 0,
            r.tree().stored() == Seq::<R>::empty(),
            forall|p: Seq<char>| #[trigger] r.tree().lookup(p) is None,
            r.tree().paths() == Seq::<Seq<char>>::empty(),
            r.tree().is_fresh(),
            r.counter() == r.tree().route_count(),
    {
        CacheOptimizedShard { inner: CompactRadixTree::new(), count: 0 }
    }

    /// Stores `route` for `path`, counting it when it does not replace a route.
    pub fn insert(&mut self, path: &str, route: R)
        requires
            old(self).wf(),
        ensures
            final(self).wf(),
            final(self).tree().stored() == old(self).tree().stored().push(route),
            final(self).counter() == old(self).counter() + if old(self).tree().holds_route_for(path@) { 0int } else { 1int },
            final(self).counter() == final(self).tree().route_count(),
            no_wildcard(segments(path@)) ==> (final(self).tree().lookup(path@) matches Some((x, _)) && x == route),
            all_static(segments(path@)) ==> final(self).tree().lookup(path@) == Some((route, Seq::<(Seq<char>, Seq<char>)>::empty())),
            old(self).tree().is_fresh() && no_wildcard(segments(path@)) ==> forall|q: Seq<char>| #[trigger] final(self).tree().lookup(q) == (
                if matches_from(segments(path@), segments(q), 0) {
                    Some((route, captures_from(segments(path@), segments(q), 0)))
                } else {
                    None
                }),
            old(self).tree().is_fresh() && no_wildcard(segments(path@))
                ==> final(self).tree().paths() == seq![listed_path(segments(path@), segments(path@).len() as int)],
            forall|q: Seq<char>| !old(self).tree().insert_reaches(path@, q)
                ==> #[trigger] final(self).tree().lookup(q) == old(self).tree().lookup(q),
    {
        let replaced = self.inner.insert_route(path, route);
        if !replaced {
            proof {
                assert(self.inner.nodes@.len() == self.inner.nodes.len());
                lemma_live_count_bound(self.inner.nodes@, self.inner.nodes@.len() as int);
            }
            self.count = self.count + 1;
        }
    }

    /// Looks `path` up in the shard's tree.
    pub fn find(&self, path: &str) -> (r: Option<(&R, Vec<(String, String)>)>)
        requires
            self.wf(),
        ensures
            match self.tree().lookup(path@) {
                Some((route, ps)) => r matches Some((x, v)) && *x == route && pairs_view(v@) == ps,
                None => r is None,
            },
    {
        self.inner.find(path)
    }

    /// Takes the route off the node that `path` reaches and uncounts it.
    pub fn remove(&mut self, path: &str) -> (r: bool)
        requires
            old(self).wf(),
        ensures
            final(self).wf(),
            r == old(self).tree().lookup(path@) is Some,
            final(self).counter() == old(self).counter() - if r { 1int } else { 0int },
            final(self).counter() == final(self).tree().route_count(),
            !r ==> forall|q: Seq<char>| #[trigger] final(self).tree().lookup(q) == old(self).tree().lookup(q),
            final(self).tree().stored() == old(self).tree().stored(),
            final(self).tree().lookup(path@) is None,
            forall|q: Seq<char>| #[trigger] final(self).tree().lookup(q) == (
                if old(self).tree().node_of(path@) is Some && old(self).tree().node_of(q) == old(self).tree().node_of(path@) {
                    None
                } else {
                    old(self).tree().lookup(q)
                }),
    {
        if self.inner.remove(path).is_some() {
            self.count = self.count - 1;
            true
        } else {
            false
        }
    }

    /// Whether a lookup of `path` finds a route.
    pub fn contains(&self, path: &str) -> (r: bool)
        requires
            self.wf(),
        ensures
            r == self.tree().lookup(path@) is Some,
    {
        self.inner.contains(path)
    }

    /// The paths of the shard's routes.
    pub fn list_paths(&self) -> (r: Vec<String>)
        requires
            self.wf(),
        ensures
            strings_view(r@) == self.tree().paths(),
    {
        self.inner.list_paths()
    }

    /// Empties the shard.
    pub fn clear(&mut self)
        ensures
            final(self).wf(),
            final(self).counter() == 0,
            final(self).tree().stored() == Seq::<R>::empty(),
            forall|p: Seq<char>| #[trigger] final(self).tree().lookup(p) is None,
            final(self).tree().paths() == Seq::<Seq<char>>::empty(),
            final(self).tree().is_fresh(),
    {
        self.inner.clear();
        self.count = 0;
    }

    /// The number of routes the shard holds.
    pub fn count(&self) -> (r: usize)
        requires
            self.wf(),
        ensures
            r == self.counter(),
            r == self.tree().route_count(),
    {
        self.count
    }
}

impl<R> Default for CacheOptimizedShard<R> {
    fn default() -> (r: Self)
        ensures
            r.wf(),
            r.counter() == 0,
            r.tree().stored() == Seq::<R>::empty(),
            forall|p: Seq<char>| #[trigger] r.tree().lookup(p) is None,
    {
        Self::new()
    }
}

/// What `DefaultHasher::new()` finishes with after hashing the string `s`.
pub uninterp spec fn default_hash_of(s: Seq<char>) -> u64;

/// Hashes `path` with the standard library's `DefaultHasher`, as `str`'s `Hash` writes it.
/// Trusted: the result is `default_hash_of(path@)`. `DefaultHasher::new` starts from fixed
/// keys, so one build of the standard library gives one value per string; which value is
/// left unsaid.
#[verifier::external_body]
pub(crate) fn default_hash(path: &str) -> (h: u64)
    ensures
        h == default_hash_of(path@),
{
    let mut hasher = std::collections::hash_map::DefaultHasher::new();
    path.hash(&mut hasher);
    hasher.finish()
}

/// The shard for a hash: the hash as a `usize`, modulo the number of shards.
pub open spec fn shard_for(hash: u64, num_shards: usize) -> int {
    (hash as usize) as int % num_shards as int
}

/// The shard a hash selects among `num_shards`.
pub fn shard_index_for_hash(hash: u64, num_shards: usize) -> (r: usize)
    requires
        num_shards > 0,
    ensures
        r == shard_for(hash, num_shards),
        r < num_shards,
{
    (hash as usize) % num_shards
}

/// The sum of the shards' counters.
spec fn total_count<R>(s: Seq<CacheOptimizedShard<R>>) -> int
    decreases s.len(),
{
    if s.len() == 0 {
        0
    } else {
        total_count(s.drop_last()) + s.last().count as int
    }
}

proof fn lemma_total_update<R>(s: Seq<CacheOptimizedShard<R>>, i: int, x: CacheOptimizedShard<R>)
    requires
        0 <= i < s.len(),
    ensures
        total_count(s.update(i, x)) == total_count(s) - s[i].count + x.count,
        total_count(s) >= s[i].count,
    decreases s.len(),
{
    let t = s.update(i, x);
    if i == s.len() - 1 {
        assert(t.drop_last() =~= s.drop_last());
        lemma_total_nonneg(s.drop_last());
    } else {
        assert(t.drop_last() =~= s.drop_last().update(i, x));
        lemma_total_update(s.drop_last(), i, x);
    }
}

proof fn lemma_total_nonneg<R>(s: Seq<CacheOptimizedShard<R>>)
    ensures
        total_count(s) >= 0,
    decreases s.len(),
{
    if s.len() > 0 {
        lemma_total_nonneg(s.drop_last());
    }
}

proof fn lemma_total_zero<R>(s: Seq<CacheOptimizedShard<R>>)
    requires
        forall|i: int| 0 <= i < s.len() ==> (#[trigger] s[i]).count == 0,
    ensures
        total_count(s) == 0,
    decreases s.len(),
{
    if s.len() > 0 {
        lemma_total_zero(s.drop_last());
    }
}

/// The first shard from position `i` on, other than `skip`, whose tree finds `path`.
pub open spec fn first_other<R>(shards: Seq<CacheOptimizedShard<R>>, path: Seq<char>, skip: int, i: int) -> Option<int>
    decreases shards.len() - i,
{
    if i < 0 || i >= shards.len() {
        None
    } else if i != skip && shards[i].tree().lookup(path) is Some {
        Some(i)
    } else {
        first_other(shards, path, skip, i + 1)
    }
}

proof fn lemma_first_other_range<R>(a: Seq<CacheOptimizedShard<R>>, path: Seq<char>, skip: int, i: int)
    requires
        0 <= i,
    ensures
        first_other(a, path, skip, i) matches Some(k) ==> i <= k < a.len(),
    decreases a.len() - i,
{
    if i < a.len() {
        lemma_first_other_range(a, path, skip, i + 1);
    }
}

/// Shards that look `path` up alike search alike.
proof fn lemma_first_other_same<R>(a: Seq<CacheOptimizedShard<R>>, b: Seq<CacheOptimizedShard<R>>, path: Seq<char>, skip: int, i: int)
    requires
        a.len() == b.len(),
        forall|j: int| 0 <= j < a.len() ==> (#[trigger] a[j]).tree().lookup(path) == b[j].tree().lookup(path),
    ensures
        first_other(a, path, skip, i) == first_other(b, path, skip, i),
    decreases a.len() - i,
{
    if 0 <= i < a.len() {
        assert(a[i].tree().lookup(path) == b[i].tree().lookup(path));
        lemma_first_other_same(a, b, path, skip, i + 1);
    }
}

/// When only shard `h` can find `path`, the search of the other shards finds it there (unless
/// `h` is skipped).
proof fn lemma_first_other_single<R>(shards: Seq<CacheOptimizedShard<R>>, path: Seq<char>, skip: int, h: int, i: int)
    requires
        0 <= i,
        0 <= h < shards.len(),
        forall|j: int| 0 <= j < shards.len() && j != h ==> (#[trigger] shards[j]).tree().lookup(path) is None,
    ensures
        first_other(shards, path, skip, i) == if i <= h && h != skip && shards[h].tree().lookup(path) is Some {
            Some(h)
        } else {
            None
        },
    decreases shards.len() - i,
{
    if i < shards.len() {
        lemma_first_other_single(shards, path, skip, h, i + 1);
        if i != h {
            assert(shards[i].tree().lookup(path) is None);
        }
    }
}

/// A route table split into shards by the hash of the path.
pub struct CacheOptimizedRouteTable<R> {
    shards: Vec<CacheOptimizedShard<R>>,
    count: usize,
}

impl<R> CacheOptimizedRouteTable<R> {
    /// The table's internal invariant: every shard is well formed and the table's counter is
    /// the sum of the shards' counters.
    pub closed spec fn wf(&self) -> bool {
        &&& forall|i: int| 0 <= i < self.shards@.len() ==> (#[trigger] self.shards@[i]).wf()
        &&& self.count == total_count(self.shards@)
    }

    /// The shards.
    pub closed spec fn shard_list(&self) -> Seq<CacheOptimizedShard<R>> {
        self.shards@
    }

    /// The table's route counter.
    pub closed spec fn counter(&self) -> usize {
        self.count
    }

    /// The shard that `path` hashes to.
    pub open spec fn home_shard(&self, path: Seq<char>) -> int {
        shard_for(default_hash_of(path), self.shard_list().len() as usize)
    }

    /// The shard whose answer a lookup of `path` gives: the home shard if it finds `path`,
    /// else the first other shard that does.
    pub open spec fn answering_shard(&self, path: Seq<char>) -> Option<int> {
        if self.shard_list()[self.home_shard(path)].tree().lookup(path) is Some {
            Some(self.home_shard(path))
        } else {
            first_other(self.shard_list(), path, self.home_shard(path), 0)
        }
    }

    /// What a lookup of `path` finds.
    pub open spec fn lookup(&self, path: Seq<char>) -> Option<(R, Seq<(Seq<char>, Seq<char>)>)> {
        match self.answering_shard(path) {
            Some(i) => self.shard_list()[i].tree().lookup(path),
            None => None,
        }
    }

    /// A table of `num_shards` empty shards.
    pub fn new(num_shards: usize) -> (t: Self)
        ensures
            t.wf(),
            t.shard_list().len() == num_shards,
            t.counter() == 0,
            forall|i: int, p: Seq<char>| 0 <= i < num_shards ==> #[trigger] t.shard_list()[i].tree().lookup(p) is None,
            forall|i: int| 0 <= i < num_shards ==> (#[trigger] t.shard_list()[i]).counter() == 0
                && t.shard_list()[i].tree().paths() == Seq::<Seq<char>>::empty()
                && t.shard_list()[i].tree().is_fresh(),
    {
        let mut shards: Vec<CacheOptimizedShard<R>> = Vec::new();
        let mut i: usize = 0;
        while i < num_shards
            invariant
                i <= num_shards,
                shards@.len() == i,
                forall|j: int| 0 <= j < i ==> (#[trigger] shards@[j]).wf() && shards@[j].count == 0
                    && shards@[j].tree().paths() == Seq::<Seq<char>>::empty()
                    && shards@[j].tree().is_fresh()
                    && forall|p: Seq<char>| #[trigger] shards@[j].tree().lookup(p) is None,
            decreases num_shards - i,
        {
            shards.push(CacheOptimizedShard::new());
            i = i + 1;
        }
        proof {
            lemma_total_zero(shards@);
        }
        CacheOptimizedRouteTable { shards, count: 0 }
    }

    /// The shard that `path` hashes to.
    fn shard_index(&self, path: &str) -> (r: usize)
        requires
            self.shards@.len() > 0,
        ensures
            r == self.home_shard(path@),
            r < self.shards@.len(),
    {
        let h = default_hash(path);
        shard_index_for_hash(h, self.shards.len())
    }

    /// Stores `route` for `path` in its home shard, counting it when it does not replace a
    /// route there.
    #[verifier::rlimit(60)]
    #[verifier::spinoff_prover]
    pub fn insert(&mut self, path: String, route: R)
        requires
            old(self).wf(),
            old(self).shard_list().len() > 0,
            old(self).counter() < usize::MAX,
        ensures
            final(self).wf(),
            final(self).shard_list().len() == old(self).shard_list().len(),
            ({
                let h = old(self).home_shard(path@);
                &&& forall|i: int| 0 <= i < old(self).shard_list().len() && i != h
                    ==> #[trigger] final(self).shard_list()[i] == old(self).shard_list()[i]
                &&& final(self).shard_list()[h].tree().stored() == old(self).shard_list()[h].tree().stored().push(route)
                &&& final(self).counter() == old(self).counter()
                    + if old(self).shard_list()[h].tree().holds_route_for(path@) { 0int } else { 1int }
                &&& final(self).shard_list()[h].counter() == old(self).shard_list()[h].counter()
                    + if old(self).shard_list()[h].tree().holds_route_for(path@) { 0int } else { 1int }
                &&& no_wildcard(segments(path@)) ==> (final(self).shard_list()[h].tree().lookup(path@) matches Some((x, _)) && x == route)
            }),
            no_wildcard(segments(path@)) ==> (final(self).lookup(path@) matches Some((x, _)) && x == route),
            all_static(segments(path@)) ==> final(self).lookup(path@) == Some((route, Seq::<(Seq<char>, Seq<char>)>::empty())),
            (forall|i: int| 0 <= i < old(self).shard_list().len() ==> (#[trigger] old(self).shard_list()[i]).tree().is_fresh())
                && no_wildcard(segments(path@)) ==> forall|q: Seq<char>| #[trigger] final(self).lookup(q) == (
                if matches_from(segments(path@), segments(q), 0) {
                    Some((route, captures_from(segments(path@), segments(q), 0)))
                } else {
                    None
                }),
            (forall|i: int| 0 <= i < old(self).shard_list().len() ==> (#[trigger] old(self).shard_list()[i]).tree().is_fresh())
                && no_wildcard(segments(path@)) ==> all_paths(final(self).shard_list(), final(self).shard_list().len() as int)
                    == seq![listed_path(segments(path@), segments(path@).len() as int)],
            forall|q: Seq<char>| !old(self).shard_list()[old(self).home_shard(path@)].tree().insert_reaches(path@, q)
                ==> #[trigger] final(self).lookup(q) == old(self).lookup(q),
    {
        let shard_idx = self.shard_index(path.as_str());
        let ghost old_shards = self.shards@;
        proof { assert(old_shards[shard_idx as int].wf()); }
        let before_count = self.shards[shard_idx].count();
        self.shards[shard_idx].insert(path.as_str(), route);
        proof {
            assert(self.shards@ == old_shards.update(shard_idx as int, self.shards@[shard_idx as int]));
            lemma_total_update(old_shards, shard_idx as int, self.shards@[shard_idx as int]);
        }
        let after_count = self.shards[shard_idx].count();
        if after_count != before_count {
            self.count = self.count + 1;
        }
        proof {
            let h0 = shard_idx as int;
            assert forall|q: Seq<char>| !old_shards[h0].tree().insert_reaches(path@, q)
                implies #[trigger] self.lookup(q) == old(self).lookup(q) by {
                assert forall|j: int| 0 <= j < self.shards@.len()
                    implies (#[trigger] self.shards@[j]).tree().lookup(q) == old_shards[j].tree().lookup(q) by {
                    if j != h0 {
                        assert(self.shards@[j] == old_shards[j]);
                    } else {
                        assert(old_shards[h0] == old(self).shard_list()[old(self).home_shard(path@)]);
                        assert(self.shards@[h0].tree().lookup(q) == old_shards[h0].tree().lookup(q));
                    }
                }
                assert(self.home_shard(q) == old(self).home_shard(q));
                lemma_first_other_same(self.shards@, old_shards, q, self.home_shard(q), 0);
                assert(self.shard_list() == self.shards@);
                assert(old(self).shard_list() == old_shards);
                let hq = self.home_shard(q);
                let hv = (default_hash_of(q) as usize) as int;
                let nn = (self.shard_list().len() as usize) as int;
                assert(self.shards@.len() == self.shards.len());
                assert(nn == self.shards@.len());
                assert(hq == hv % nn);
                assert(0 <= hv % nn < nn) by (nonlinear_arith)
                    requires nn > 0, hv >= 0;
                assert(self.shards@[hq].tree().lookup(q) == old_shards[hq].tree().lookup(q));
                assert(self.answering_shard(q) == old(self).answering_shard(q));
                match self.answering_shard(q) {
                    Some(i) => {
                        if self.shards@[hq].tree().lookup(q) is None {
                            lemma_first_other_range(self.shards@, q, hq, 0);
                        }
                        assert(0 <= i < self.shards@.len());
                        assert(self.shards@[i].tree().lookup(q) == old_shards[i].tree().lookup(q));
                    },
                    None => {},
                }
            }
        }
        proof {
            let sg = segments(path@);
            let h = shard_idx as int;
            if (forall|i: int| 0 <= i < old_shards.len() ==> (#[trigger] old_shards[i]).tree().is_fresh()) && no_wildcard(sg) {
                assert(old_shards[h].tree().is_fresh());
                assert forall|q: Seq<char>| #[trigger] self.lookup(q) == (
                    if matches_from(sg, segments(q), 0) {
                        Some((route, captures_from(sg, segments(q), 0)))
                    } else {
                        None
                    }) by {
                    assert forall|i: int| 0 <= i < self.shards@.len() && i != h
                        implies (#[trigger] self.shards@[i]).tree().lookup(q) is None by {
                        assert(self.shards@[i] == old_shards[i]);
                        old_shards[i].tree().lemma_fresh_lookup(q);
                    }
                    lemma_first_other_single(self.shards@, q, self.home_shard(q), h, 0);
                    assert(self.shards@[h].tree().lookup(q) == (
                        if matches_from(sg, segments(q), 0) {
                            Some((route, captures_from(sg, segments(q), 0)))
                        } else {
                            None
                        }));
                    assert(self.shard_list() == self.shards@);
                    let hq = self.home_shard(q);
                    let hv = (default_hash_of(q) as usize) as int;
                    let nn = (self.shard_list().len() as usize) as int;
                    assert(self.shards@.len() == self.shards.len());
                    assert(nn == self.shards@.len());
                    assert(hq == hv % nn);
                    assert(0 <= hv % nn < nn) by (nonlinear_arith)
                        requires nn > 0, hv >= 0;
                    assert(0 <= hq < self.shards@.len());
                    if hq != h {
                        assert(self.shards@[hq].tree().lookup(q) is None);
                    }
                }
                assert forall|j: int| 0 <= j < self.shards@.len() && j != h
                    implies (#[trigger] self.shards@[j]).tree().paths() == Seq::<Seq<char>>::empty() by {
                    assert(self.shards@[j] == old_shards[j]);
                    old_shards[j].tree().lemma_fresh_paths();
                }
                lemma_all_paths_single(self.shards@, h, self.shards@.len() as int);
            }
        }
    }

    /// Looks `path` up: first in its home shard, then in the other shards in order (a pattern
    /// such as `/user/{id}` need not share the home shard of the paths it matches).
    pub fn find(&self, path: &str) -> (r: Option<(&R, Vec<(String, String)>)>)
        requires
            self.wf(),
            self.shard_list().len() > 0,
        ensures
            match self.lookup(path@) {
                Some((route, ps)) => r matches Some((x, v)) && *x == route && pairs_view(v@) == ps,
                None => r is None,
            },
    {
        let shard_idx = self.shard_index(path);
        let home = self.shards[shard_idx].find(path);
        if home.is_some() {
            return home;
        }
        let mut i: usize = 0;
        while i < self.shards.len()
            invariant
                self.wf(),
                shard_idx == self.home_shard(path@),
                shard_idx < self.shards@.len(),
                self.shards@[shard_idx as int].tree().lookup(path@) is None,
                i <= self.shards@.len(),
                first_other(self.shards@, path@, shard_idx as int, 0) == first_other(self.shards@, path@, shard_idx as int, i as int),
            decreases self.shards@.len() - i,
        {
            if i != shard_idx {
                assert(self.shards@[i as int].wf());
                let result = self.shards[i].find(path);
                if result.is_some() {
                    return result;
                }
            }
            i = i + 1;
        }
        None
    }

    /// Takes the route for `path` off its home shard and uncounts it.
    pub fn remove(&mut self, path: &str) -> (r: bool)
        requires
            old(self).wf(),
            old(self).shard_list().len() > 0,
        ensures
            final(self).wf(),
            final(self).shard_list().len() == old(self).shard_list().len(),
            ({
                let h = old(self).home_shard(path@);
                &&& r == old(self).shard_list()[h].tree().lookup(path@) is Some
                &&& forall|i: int| 0 <= i < old(self).shard_list().len() && i != h
                    ==> #[trigger] final(self).shard_list()[i] == old(self).shard_list()[i]
                &&& final(self).shard_list()[h].tree().lookup(path@) is None
                &&& final(self).shard_list()[h].tree().stored() == old(self).shard_list()[h].tree().stored()
            }),
            final(self).counter() == old(self).counter() - if r { 1int } else { 0int },
    {
        let shard_idx = self.shard_index(path);
        let ghost old_shards = self.shards@;
        proof {
            assert(old_shards[shard_idx as int].wf());
            lemma_total_update(old_shards, shard_idx as int, old_shards[shard_idx as int]);
        }
        let removed = self.shards[shard_idx].remove(path);
        proof {
            assert(self.shards@ == old_shards.update(shard_idx as int, self.shards@[shard_idx as int]));
            lemma_total_update(old_shards, shard_idx as int, self.shards@[shard_idx as int]);
        }
        if removed {
            self.count = self.count - 1;
        }
        removed
    }

    /// Whether the home shard of `path` finds a route for it.
    pub fn contains(&self, path: &str) -> (r: bool)
        requires
            self.wf(),
            self.shard_list().len() > 0,
        ensures
            r == self.shard_list()[self.home_shard(path@)].tree().lookup(path@) is Some,
    {
        let shard_idx = self.shard_index(path);
        self.shards[shard_idx].contains(path)
    }

    /// The number of routes counted into the table.
    pub fn count(&self) -> (r: usize)
        ensures
            r == self.counter(),
    {
        self.count
    }

    /// The paths of all shards, shard by shard.
    pub fn list_paths(&self) -> (r: Vec<String>)
        requires
            self.wf(),
        ensures
            strings_view(r@) == all_paths(self.shard_list(), self.shard_list().len() as int),
    {
        let mut paths: Vec<String> = Vec::new();
        let mut i: usize = 0;
        assert(strings_view(paths@) =~= all_paths(self.shards@, 0));
        while i < self.shards.len()
            invariant
                self.wf(),
                i <= self.shards@.len(),
                strings_view(paths@) == all_paths(self.shards@, i as int),
            decreases self.shards@.len() - i,
        {
            assert(self.shards@[i as int].wf());
            let mut more = self.shards[i].list_paths();
            let ghost before = paths@;
            paths.append(&mut more);
            assert(strings_view(paths@) =~= all_paths(self.shards@, i as int + 1));
            i = i + 1;
        }
        paths
    }

    /// Empties every shard and resets the counter.
    pub fn clear(&mut self)
        requires
            old(self).wf(),
        ensures
            final(self).wf(),
            final(self).counter() == 0,
            final(self).shard_list().len() == old(self).shard_list().len(),
            forall|i: int, p: Seq<char>| 0 <= i < final(self).shard_list().len()
                ==> #[trigger] final(self).shard_list()[i].tree().lookup(p) is None,
    {
        let mut i: usize = 0;
        let ghost n = self.shards@.len();
        while i < self.shards.len()
            invariant
                self.shards@.len() == n,
                i <= n,
                forall|j: int| 0 <= j < n ==> (#[trigger] self.shards@[j]).wf(),
                forall|j: int| 0 <= j < i ==> (#[trigger] self.shards@[j]).count == 0
                    && forall|p: Seq<char>| #[trigger] self.shards@[j].tree().lookup(p) is None,
            decreases n - i,
        {
            self.shards[i].clear();
            i = i + 1;
        }
        self.count = 0;
        proof {
            lemma_total_zero(self.shards@);
        }
    }
}

/// The paths of the first `n` shards, shard by shard.
pub open spec fn all_paths<R>(shards: Seq<CacheOptimizedShard<R>>, n: int) -> Seq<Seq<char>>
    decreases n,
{
    if n <= 0 {
        Seq::empty()
    } else {
        all_paths(shards, n - 1) + shards[n - 1].tree().paths()
    }
}

/// When only shard `h` lists paths, the shard-by-shard listing is its listing.
proof fn lemma_all_paths_single<R>(shards: Seq<CacheOptimizedShard<R>>, h: int, n: int)
    requires
        0 <= h < shards.len(),
        0 <= n <= shards.len(),
        forall|j: int| 0 <= j < shards.len() && j != h ==> (#[trigger] shards[j]).tree().paths() == Seq::<Seq<char>>::empty(),
    ensures
        all_paths(shards, n) == if h < n { shards[h].tree().paths() } else { Seq::<Seq<char>>::empty() },
    decreases n,
{
    if n > 0 {
        lemma_all_paths_single(shards, h, n - 1);
        if n - 1 != h {
            assert(shards[n - 1].tree().paths() == Seq::<Seq<char>>::empty());
        }
        assert(all_paths(shards, n) =~= all_paths(shards, n - 1) + shards[n - 1].tree().paths());
    }
}

impl<R> Default for CacheOptimizedRouteTable<R> {
    fn default() -> (t: Self)
        ensures
            t.wf(),
            t.shard_list().len() == 16,
            t.counter() == 0,
    {
        Self::new(16)
    }
}

} // verus!

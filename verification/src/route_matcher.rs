//! Route patterns with path parameters and wildcards, and a matcher over a list of them.
use vstd::prelude::*;
use crate::text::{starts_with_char, ends_with_char, str_eq, starts_with, ends_with, split_pieces, split_on, find_from, lemma_find_from, lemma_find_from_unique, is_prefix, chars_of, contains_char, find_char_index, owned, substring, find_seq_vec, occurs_at, contains_seq};
use crate::param_map::{ParamMap, assoc_insert};

verus! {

/// A piece of a pattern that names a parameter: `{name}`.
pub open spec fn is_param_piece(p: Seq<char>) -> bool {
    p.len() >= 1 && p[0] == '{' && p.last() == '}'
}

/// The name inside a parameter piece.
pub open spec fn param_piece_name(p: Seq<char>) -> Seq<char> {
    p.subrange(1, p.len() - 1)
}

/// The names written between `{` and the next `}` of `s`, in order, leaving out empty ones.
/// An unclosed `{` takes the rest of the text as its name.
pub open spec fn param_names(s: Seq<char>) -> Seq<Seq<char>>
    decreases s.len(),
{
    if s.len() == 0 {
        Seq::<Seq<char>>::empty()
    } else if s[0] == '{' {
        let rest = s.drop_first();
        let j = find_from(rest, '}', 0);
        let name = rest.subrange(0, j);
        let after = if j < rest.len() { rest.subrange(j + 1, rest.len() as int) } else { Seq::<char>::empty() };
        proof { lemma_find_from(rest, '}', 0); }
        (if name.len() > 0 { seq![name] } else { Seq::<Seq<char>>::empty() }) + param_names(after)
    } else {
        param_names(s.drop_first())
    }
}

/// Whether the pieces of a pattern and of a path agree up to piece `i`.
pub open spec fn pieces_agree(pp: Seq<Seq<char>>, qp: Seq<Seq<char>>, i: int) -> bool {
    forall|j: int| 0 <= j < i ==> is_param_piece(#[trigger] pp[j]) || pp[j] == qp[j]
}

/// The parameters captured by the first `i` pieces, in the order they are set.
pub open spec fn captured(pp: Seq<Seq<char>>, qp: Seq<Seq<char>>, i: int) -> Seq<(Seq<char>, Seq<char>)>
    decreases i,
{
    if i <= 0 {
        Seq::<(Seq<char>, Seq<char>)>::empty()
    } else if is_param_piece(pp[i - 1]) {
        assoc_insert(captured(pp, qp, i - 1), param_piece_name(pp[i - 1]), qp[i - 1])
    } else {
        captured(pp, qp, i - 1)
    }
}

/// The outcome of matching `path` against a `{param}` pattern: the matched path and the parameters.
pub open spec fn parameterized_match(pattern: Seq<char>, path: Seq<char>) -> Option<(Seq<char>, Seq<(Seq<char>, Seq<char>)>)> {
    let pp = split_on(pattern, '/');
    let qp = split_on(path, '/');
    if pp.len() == qp.len() && pieces_agree(pp, qp, pp.len() as int) {
        Some((path, captured(pp, qp, pp.len() as int)))
    } else {
        None
    }
}

/// Result of a successful match.
#[derive(Debug)]
pub struct MatchResult {
    /// The path that matched.
    pub path: String,
    /// The captured path parameters.
    pub params: ParamMap,
}

/// A route pattern.
#[derive(Debug, Clone)]
pub enum RoutePattern {
    /// Matches one path exactly.
    Exact(String),
    /// Matches paths piece by piece, `{name}` pieces capturing the path's piece.
    Parameterized { pattern: String, param_names: Vec<String> },
    /// Matches every path that starts with `prefix`.
    Wildcard { prefix: String, capture_name: Option<String> },
}

/// Priority of a pattern kind when several match: exact over parameterized over wildcard.
pub open spec fn priority(p: RoutePattern) -> int {
    match p {
        RoutePattern::Exact(_) => 3,
        RoutePattern::Parameterized { .. } => 2,
        RoutePattern::Wildcard { .. } => 1,
    }
}

/// What matching `path` against `p` gives: the matched path and the captured parameters.
pub open spec fn pattern_match(p: RoutePattern, path: Seq<char>) -> Option<(Seq<char>, Seq<(Seq<char>, Seq<char>)>)> {
    match p {
        RoutePattern::Exact(s) => if s@ == path {
            Some((path, Seq::<(Seq<char>, Seq<char>)>::empty()))
        } else {
            None
        },
        RoutePattern::Parameterized { pattern, .. } => parameterized_match(pattern@, path),
        RoutePattern::Wildcard { prefix, capture_name } => if is_prefix(prefix@, path) {
            Some((path, match capture_name {
                Some(n) => assoc_insert(Seq::<(Seq<char>, Seq<char>)>::empty(), n@, path.subrange(prefix@.len() as int, path.len() as int)),
                None => Seq::<(Seq<char>, Seq<char>)>::empty(),
            }))
        } else {
            None
        },
    }
}

/// The pattern that `RoutePattern::from` builds for `s`.
pub open spec fn pattern_kind_of(s: Seq<char>) -> int {
    if s.contains('{') && s.contains('}') {
        2
    } else if s.contains('*') {
        1
    } else {
        3
    }
}

proof fn lemma_param_names_step(s: Seq<char>, i: int)
    requires
        0 <= i < s.len(),
    ensures
        s[i] != '{' ==> param_names(s.subrange(i, s.len() as int)) == param_names(s.subrange(i + 1, s.len() as int)),
{
    let t = s.subrange(i, s.len() as int);
    assert(t.drop_first() =~= s.subrange(i + 1, s.len() as int));
}

impl RoutePattern {
    /// Builds a pattern from a route path: `{..}` makes it parameterized, else `*` makes it a
    /// wildcard on the text before the first `*`, else it matches exactly.
    pub fn from(path: &str) -> (r: RoutePattern)
        ensures
            pattern_kind_of(path@) == priority(r),
            match r {
                RoutePattern::Exact(s) => s@ == path@,
                RoutePattern::Parameterized { pattern, param_names: names } =>
                    pattern@ == path@ && names@.len() == param_names(path@).len()
                    && forall|k: int| 0 <= k < names@.len() ==> #[trigger] names@[k]@ == param_names(path@)[k],
                RoutePattern::Wildcard { prefix, capture_name } =>
                    prefix@ == path@.subrange(0, find_from(path@, '*', 0)) && capture_name is None,
            },
    {
        if contains_char(path, '{') && contains_char(path, '}') {
            let names = Self::extract_param_names(path);
            RoutePattern::Parameterized { pattern: owned(path), param_names: names }
        } else if contains_char(path, '*') {
            let star = find_char_index(path, '*');
            let end = match star { Some(i) => i, None => 0 };
            proof { lemma_find_from(path@, '*', 0); }
            let prefix = substring(path, 0, end);
            proof { lemma_no_capture_without_braces(path@); }
            let capture = Self::extract_wildcard_name(path);
            RoutePattern::Wildcard { prefix, capture_name: capture }
        } else {
            RoutePattern::Exact(owned(path))
        }
    }

    /// The parameter names of a pattern: the text between each `{` and the next `}`.
    pub(crate) fn extract_param_names(path: &str) -> (r: Vec<String>)
        ensures
            r@.len() == param_names(path@).len(),
            forall|k: int| 0 <= k < r@.len() ==> #[trigger] r@[k]@ == param_names(path@)[k],
    {
        let a = chars_of(path);
        let n = a.len();
        let ghost s = path@;
        let mut out: Vec<String> = Vec::new();
        let mut i: usize = 0;
        assert(s.subrange(0, n as int) =~= s);
        while i < n
            invariant
                a@ == s,
                s == path@,
                n == s.len(),
                i <= n,
                out@.map_values(|x: String| x@) + param_names(s.subrange(i as int, n as int)) == param_names(s),
            decreases n - i,
        {
            let ghost t = s.subrange(i as int, n as int);
            if a[i] == '{' {
                let mut j: usize = i + 1;
                while j < n && a[j] != '}'
                    invariant
                        a@ == s,
                        n == s.len(),
                        i < j <= n,
                        forall|k: int| i + 1 <= k < j ==> s[k] != '}',
                    decreases n - j,
                {
                    j = j + 1;
                }
                let ghost rest = t.drop_first();
                proof {
                    assert(rest =~= s.subrange(i + 1, n as int));
                    lemma_find_from_unique(rest, '}', 0, j - i - 1);
                    assert(rest.subrange(0, j - i - 1) =~= s.subrange(i + 1, j as int));
                }
                let ghost before = out@.map_values(|x: String| x@);
                if j > i + 1 {
                    let name = substring(path, i + 1, j);
                    out.push(name);
                    assert(out@.map_values(|x: String| x@) =~= before.push(name@));
                }
                let next = if j < n { j + 1 } else { n };
                proof {
                    let after = if j - i - 1 < rest.len() { rest.subrange(j - i, rest.len() as int) } else { Seq::<char>::empty() };
                    assert(after =~= s.subrange(next as int, n as int));
                    assert(param_names(t) == (if j > i + 1 { seq![s.subrange(i + 1, j as int)] } else { Seq::<Seq<char>>::empty() }) + param_names(after));
                    if j > i + 1 {
                        assert(before + param_names(t) =~= before.push(s.subrange(i + 1, j as int)) + param_names(after));
                    } else {
                        assert(before + param_names(t) =~= before + param_names(after));
                    }
                }
                i = next;
            } else {
                proof { lemma_param_names_step(s, i as int); }
                i = i + 1;
            }
        }
        proof {
            assert(s.subrange(n as int, n as int) =~= Seq::<char>::empty());
            assert(out@.map_values(|x: String| x@) + Seq::<Seq<char>>::empty() =~= out@.map_values(|x: String| x@));
        }
        out
    }

    /// The name of a `{*name}` capture: the text between the first `{*` and the first `}`
    /// (see `wildcard_capture`).
    pub(crate) fn extract_wildcard_name(path: &str) -> (r: Option<String>)
        requires
            !capture_slices_backwards(path@),
        ensures
            match wildcard_capture(path@) {
                Some(name) => r matches Some(x) && x@ == name,
                None => r is None,
            },
    {
        let a = chars_of(path);
        let pat = vec!['{', '*'];
        proof {
            assert(seq!['{', '*'] =~= pat@);
            lemma_find_from(path@, '}', 0);
        }
        let open_star = find_seq_vec(&a, &pat);
        match open_star {
            Some(st) => {
                proof { lemma_first_open_star(path@, st as int); }
                match find_char_index(path, '}') {
                    Some(end) => {
                        if end > st + 2 {
                            Some(substring(path, st + 2, end))
                        } else {
                            None
                        }
                    },
                    None => None,
                }
            },
            None => {
                proof {
                    if exists|i: int| #[trigger] is_first_open_star(path@, i) {
                        let i = choose|i: int| #[trigger] is_first_open_star(path@, i);
                        assert(contains_seq(path@, seq!['{', '*']));
                    }
                }
                None
            },
        }
    }
}

/// Whether `i` is the first position of `{*` in `s`.
pub open spec fn is_first_open_star(s: Seq<char>, i: int) -> bool {
    &&& occurs_at(s, seq!['{', '*'], i)
    &&& forall|j: int| 0 <= j < i ==> !occurs_at(s, seq!['{', '*'], j)
}

/// The position of the first `{*` in `s`, if there is one.
pub open spec fn first_open_star(s: Seq<char>) -> Option<int> {
    if exists|i: int| #[trigger] is_first_open_star(s, i) {
        Some(choose|i: int| #[trigger] is_first_open_star(s, i))
    } else {
        None
    }
}

/// The name of a `{*name}` wildcard capture in `s`: the text between the first `{*` and
/// the first `}`, when that `}` comes after the `{*` and the name is not empty.
pub open spec fn wildcard_capture(s: Seq<char>) -> Option<Seq<char>> {
    match first_open_star(s) {
        Some(i) => {
            let e = find_from(s, '}', 0);
            if i + 2 < e && e < s.len() { Some(s.subrange(i + 2, e)) } else { None }
        },
        None => None,
    }
}

/// Whether the first `}` of `s` comes before its first `{*`, so that the text between them
/// would run backwards.
pub open spec fn capture_slices_backwards(s: Seq<char>) -> bool {
    match first_open_star(s) {
        Some(i) => find_from(s, '}', 0) < i,
        None => false,
    }
}

/// A first position of `{*` is the one `first_open_star` gives.
pub proof fn lemma_first_open_star(s: Seq<char>, i: int)
    requires
        is_first_open_star(s, i),
    ensures
        first_open_star(s) == Some(i),
{
    let c = choose|j: int| #[trigger] is_first_open_star(s, j);
    assert(is_first_open_star(s, c));
    if c < i {
        assert(!occurs_at(s, seq!['{', '*'], c));
    } else if i < c {
        assert(!occurs_at(s, seq!['{', '*'], i));
    }
}

/// A path without both `{` and `}` has no capture, and taking one does not run backwards.
pub proof fn lemma_no_capture_without_braces(s: Seq<char>)
    requires
        !(s.contains('{') && s.contains('}')),
    ensures
        !capture_slices_backwards(s),
        wildcard_capture(s) is None,
{
    lemma_find_from(s, '}', 0);
    if exists|i: int| #[trigger] is_first_open_star(s, i) {
        let i = choose|i: int| #[trigger] is_first_open_star(s, i);
        assert(s.subrange(i, i + 2)[0] == '{');
        assert(s[i] == '{');
        assert(s.contains('{'));
        if find_from(s, '}', 0) < s.len() {
            assert(s.contains('}'));
        }
    }
}


/// The pieces of a pattern and of a path agree one more piece on.
proof fn lemma_captured_step(pp: Seq<Seq<char>>, qp: Seq<Seq<char>>, i: int)
    requires
        0 <= i,
    ensures
        captured(pp, qp, i + 1) == (if is_param_piece(pp[i]) {
            assoc_insert(captured(pp, qp, i), param_piece_name(pp[i]), qp[i])
        } else {
            captured(pp, qp, i)
        }),
{
}

impl RoutePattern {
    /// Matches `path` against this pattern.
    pub fn match_path(&self, path: &str) -> (r: Option<MatchResult>)
        ensures
            match r {
                Some(m) => pattern_match(*self, path@) == Some((m.path@, m.params@)),
                None => pattern_match(*self, path@) is None,
            },
            self matches RoutePattern::Exact(s) ==> ((r is Some) <==> s@ == path@),
            self matches RoutePattern::Wildcard { prefix, .. } ==> ((r is Some) <==> is_prefix(prefix@, path@)),
            r matches Some(m) ==> m.path@ == path@,
    {
        match self {
            RoutePattern::Exact(pattern) => {
                if str_eq(pattern.as_str(), path) {
                    Some(MatchResult { path: owned(path), params: ParamMap::new() })
                } else {
                    None
                }
            },
            RoutePattern::Parameterized { pattern, .. } => {
                let pp = split_pieces(pattern.as_str(), '/');
                let qp = split_pieces(path, '/');
                let ghost ppv = split_on(pattern@, '/');
                let ghost qpv = split_on(path@, '/');
                if pp.len() != qp.len() {
                    return None;
                }
                let mut params = ParamMap::new();
                let mut i: usize = 0;
                while i < pp.len()
                    invariant
                        ppv == split_on(pattern@, '/'),
                        qpv == split_on(path@, '/'),
                        pattern_match(*self, path@) == parameterized_match(pattern@, path@),
                        pp@.len() == ppv.len(),
                        qp@.len() == qpv.len(),
                        pp@.len() == qp@.len(),
                        forall|k: int| 0 <= k < pp@.len() ==> #[trigger] pp@[k]@ == ppv[k],
                        forall|k: int| 0 <= k < qp@.len() ==> #[trigger] qp@[k]@ == qpv[k],
                        i <= pp.len(),
                        pieces_agree(ppv, qpv, i as int),
                        params@ == captured(ppv, qpv, i as int),
                    decreases pp.len() - i,
                {
                    let part = pp[i].as_str();
                    assert(part@ == ppv[i as int]);
                    assert(qp@[i as int]@ == qpv[i as int]);
                    proof { lemma_captured_step(ppv, qpv, i as int); }
                    let is_param = starts_with_char(part, '{') && ends_with_char(part, '}');
                    assert(is_param == is_param_piece(part@));
                    if is_param {
                        let len = part.unicode_len();
                        let name = substring(part, 1, len - 1);
                        params.insert(name, qp[i].clone());
                    } else if !str_eq(part, qp[i].as_str()) {
                        assert(!(is_param_piece(ppv[i as int]) || ppv[i as int] == qpv[i as int]));
                        assert(!pieces_agree(ppv, qpv, ppv.len() as int));
                        return None;
                    }
                    i = i + 1;
                }
                Some(MatchResult { path: owned(path), params })
            },
            RoutePattern::Wildcard { prefix, capture_name } => {
                if starts_with(path, prefix.as_str()) {
                    let len = path.unicode_len();
                    let plen = prefix.as_str().unicode_len();
                    let captured_text = substring(path, plen, len);
                    let mut params = ParamMap::new();
                    match capture_name {
                        Some(n) => { params.insert(n.clone(), captured_text); },
                        None => {},
                    }
                    Some(MatchResult { path: owned(path), params })
                } else {
                    None
                }
            },
        }
    }
}


/// The results of matching `path` against each pattern of `ps` that matches, in order.
pub open spec fn all_matches(ps: Seq<RoutePattern>, path: Seq<char>) -> Seq<(Seq<char>, Seq<(Seq<char>, Seq<char>)>)>
    decreases ps.len(),
{
    if ps.len() == 0 {
        Seq::empty()
    } else {
        let m = all_matches(ps.drop_last(), path);
        match pattern_match(ps.last(), path) {
            Some(x) => m.push(x),
            None => m,
        }
    }
}

/// The best match among `ps` with its priority: the first match of highest priority.
pub open spec fn best_match(ps: Seq<RoutePattern>, path: Seq<char>) -> Option<((Seq<char>, Seq<(Seq<char>, Seq<char>)>), int)>
    decreases ps.len(),
{
    if ps.len() == 0 {
        None
    } else {
        let b = best_match(ps.drop_last(), path);
        match pattern_match(ps.last(), path) {
            Some(x) => match b {
                Some(bb) => if priority(ps.last()) <= bb.1 { b } else { Some((x, priority(ps.last()))) },
                None => Some((x, priority(ps.last()))),
            },
            None => b,
        }
    }
}

/// An exact pattern matches a path exactly when the path is its text, capturing nothing; a
/// wildcard pattern matches exactly the paths that start with its prefix; a match reports
/// the path it was given.
pub proof fn lemma_pattern_match_kinds(p: RoutePattern, path: Seq<char>)
    ensures
        p matches RoutePattern::Exact(s) ==> ((pattern_match(p, path) is Some) <==> s@ == path)
            && (pattern_match(p, path) matches Some(x) ==> x.1.len() == 0),
        p matches RoutePattern::Wildcard { prefix, .. } ==> ((pattern_match(p, path) is Some) <==> is_prefix(prefix@, path)),
        pattern_match(p, path) matches Some(x) ==> x.0 == path,
{
}

/// The list of all matches holds what each matching pattern gives and nothing else, and is
/// no longer than the list of patterns.
pub proof fn lemma_all_matches_complete(ps: Seq<RoutePattern>, path: Seq<char>)
    ensures
        forall|i: int| 0 <= i < ps.len() && #[trigger] pattern_match(ps[i], path) is Some
            ==> all_matches(ps, path).contains(pattern_match(ps[i], path)->0),
        forall|k: int| #![trigger all_matches(ps, path)[k]] 0 <= k < all_matches(ps, path).len() ==> exists|i: int| 0 <= i < ps.len()
            && #[trigger] pattern_match(ps[i], path) == Some(all_matches(ps, path)[k]),
        all_matches(ps, path).len() <= ps.len(),
        (all_matches(ps, path).len() == 0) <==> (forall|i: int| 0 <= i < ps.len() ==> #[trigger] pattern_match(ps[i], path) is None),
    decreases ps.len(),
{
    if ps.len() > 0 {
        let init = ps.drop_last();
        let n = ps.len() - 1;
        lemma_all_matches_complete(init, path);
        let m = all_matches(init, path);
        let a = all_matches(ps, path);
        assert forall|i: int| 0 <= i < ps.len() && #[trigger] pattern_match(ps[i], path) is Some
            implies a.contains(pattern_match(ps[i], path)->0) by {
            if i < n {
                assert(init[i] == ps[i]);
                assert(pattern_match(init[i], path) is Some);
                let x = pattern_match(ps[i], path)->0;
                let k = choose|k: int| 0 <= k < m.len() && m[k] == x;
                assert(a[k] == m[k]);
            } else {
                assert(a[a.len() - 1] == pattern_match(ps[i], path)->0);
            }
        }
        assert forall|k: int| #![trigger a[k]] 0 <= k < a.len() implies exists|i: int| 0 <= i < ps.len()
            && #[trigger] pattern_match(ps[i], path) == Some(a[k]) by {
            if k < m.len() {
                assert(a[k] == m[k]);
                let i = choose|i: int| 0 <= i < init.len() && #[trigger] pattern_match(init[i], path) == Some(m[k]);
                assert(init[i] == ps[i]);
                assert(pattern_match(ps[i], path) == Some(a[k]));
            } else {
                assert(pattern_match(ps[n], path) == Some(a[k]));
            }
        }
        if a.len() == 0 {
            assert forall|i: int| 0 <= i < ps.len() implies #[trigger] pattern_match(ps[i], path) is None by {
                if i < n { assert(init[i] == ps[i]); assert(pattern_match(init[i], path) is None); }
            }
        }
        if forall|i: int| 0 <= i < ps.len() ==> #[trigger] pattern_match(ps[i], path) is None {
            assert forall|i: int| 0 <= i < init.len() implies #[trigger] pattern_match(init[i], path) is None by {
                assert(init[i] == ps[i]);
            }
            assert(pattern_match(ps[n], path) is None);
        }
    }
}

/// A parameterized pattern matches its own text; one without parameter pieces matches
/// exactly its own text.
pub proof fn lemma_parameterized_literal(pattern: Seq<char>, path: Seq<char>)
    ensures
        parameterized_match(pattern, pattern) is Some,
        (forall|j: int| 0 <= j < split_on(pattern, '/').len() ==> !is_param_piece(#[trigger] split_on(pattern, '/')[j]))
            ==> ((parameterized_match(pattern, path) is Some) <==> pattern == path),
{
    let pp = split_on(pattern, '/');
    let qp = split_on(path, '/');
    if (forall|j: int| 0 <= j < pp.len() ==> !is_param_piece(#[trigger] pp[j])) && parameterized_match(pattern, path) is Some {
        assert forall|j: int| 0 <= j < pp.len() implies pp[j] == qp[j] by {
            assert(is_param_piece(pp[j]) || pp[j] == qp[j]);
        }
        assert(pp =~= qp);
        crate::text::lemma_join_split(pattern, '/');
        crate::text::lemma_join_split(path, '/');
    }
}

/// Whether pattern `i` of `ps` is a best match for `path`: it matches, no matching pattern
/// has a higher priority, and every matching pattern added before it has a lower one.
pub open spec fn is_best_at(ps: Seq<RoutePattern>, path: Seq<char>, i: int) -> bool {
    &&& 0 <= i < ps.len()
    &&& pattern_match(ps[i], path) is Some
    &&& forall|j: int| 0 <= j < ps.len() && #[trigger] pattern_match(ps[j], path) is Some ==> priority(ps[j]) <= priority(ps[i])
    &&& forall|j: int| 0 <= j < i && #[trigger] pattern_match(ps[j], path) is Some ==> priority(ps[j]) < priority(ps[i])
}

/// The best match is none exactly when no pattern matches; otherwise it is what a matching
/// pattern of the highest priority gives (exact over parameterized over wildcard), the first
/// added among those, whatever the order in which patterns of different kinds were added.
pub proof fn lemma_best_match_highest(ps: Seq<RoutePattern>, path: Seq<char>)
    ensures
        (best_match(ps, path) is None) <==> (forall|i: int| 0 <= i < ps.len() ==> #[trigger] pattern_match(ps[i], path) is None),
        best_match(ps, path) matches Some((x, pr)) ==> exists|i: int| #[trigger] is_best_at(ps, path, i)
            && pattern_match(ps[i], path) == Some(x) && priority(ps[i]) == pr,
    decreases ps.len(),
{
    if ps.len() > 0 {
        let init = ps.drop_last();
        lemma_best_match_highest(init, path);
        let n = ps.len() - 1;
        assert forall|i: int| 0 <= i < init.len() implies init[i] == ps[i] by {}
        if best_match(ps, path) is None {
            assert forall|i: int| 0 <= i < ps.len() implies #[trigger] pattern_match(ps[i], path) is None by {
                if i < n { assert(init[i] == ps[i]); assert(pattern_match(init[i], path) is None); }
            }
        } else {
            if forall|i: int| 0 <= i < ps.len() ==> #[trigger] pattern_match(ps[i], path) is None {
                assert forall|i: int| 0 <= i < init.len() implies #[trigger] pattern_match(init[i], path) is None by {
                    assert(init[i] == ps[i]);
                }
                assert(pattern_match(ps[n], path) is None);
            }
            let b = best_match(init, path);
            match pattern_match(ps.last(), path) {
                Some(x) => {
                    match b {
                        Some(bb) => {
                            let i0 = choose|i: int| #[trigger] is_best_at(init, path, i)
                                && pattern_match(init[i], path) == Some(bb.0) && priority(init[i]) == bb.1;
                            if priority(ps.last()) <= bb.1 {
                                assert(is_best_at(ps, path, i0)) by {
                                    assert(init[i0] == ps[i0]);
                                    assert forall|j: int| 0 <= j < ps.len() && #[trigger] pattern_match(ps[j], path) is Some
                                        implies priority(ps[j]) <= priority(ps[i0]) by {
                                        if j < n { assert(init[j] == ps[j]); assert(pattern_match(init[j], path) is Some); }
                                    }
                                    assert forall|j: int| 0 <= j < i0 && #[trigger] pattern_match(ps[j], path) is Some
                                        implies priority(ps[j]) < priority(ps[i0]) by {
                                        assert(init[j] == ps[j]); assert(pattern_match(init[j], path) is Some);
                                    }
                                }
                            } else {
                                assert(is_best_at(ps, path, n)) by {
                                    assert forall|j: int| 0 <= j < ps.len() && #[trigger] pattern_match(ps[j], path) is Some
                                        implies priority(ps[j]) <= priority(ps[n]) by {
                                        if j < n { assert(init[j] == ps[j]); assert(pattern_match(init[j], path) is Some); }
                                    }
                                    assert forall|j: int| 0 <= j < n && #[trigger] pattern_match(ps[j], path) is Some
                                        implies priority(ps[j]) < priority(ps[n]) by {
                                        assert(init[j] == ps[j]); assert(pattern_match(init[j], path) is Some);
                                    }
                                }
                            }
                        },
                        None => {
                            assert(is_best_at(ps, path, n)) by {
                                assert forall|j: int| 0 <= j < n implies #[trigger] pattern_match(ps[j], path) is None by {
                                    assert(init[j] == ps[j]);
                                }
                            }
                        },
                    }
                },
                None => {
                    let bb = b->0;
                    let i0 = choose|i: int| #[trigger] is_best_at(init, path, i)
                        && pattern_match(init[i], path) == Some(bb.0) && priority(init[i]) == bb.1;
                    assert(is_best_at(ps, path, i0)) by {
                        assert(init[i0] == ps[i0]);
                        assert forall|j: int| 0 <= j < ps.len() && #[trigger] pattern_match(ps[j], path) is Some
                            implies priority(ps[j]) <= priority(ps[i0]) by {
                            if j < n { assert(init[j] == ps[j]); assert(pattern_match(init[j], path) is Some); }
                        }
                        assert forall|j: int| 0 <= j < i0 && #[trigger] pattern_match(ps[j], path) is Some
                            implies priority(ps[j]) < priority(ps[i0]) by {
                            assert(init[j] == ps[j]); assert(pattern_match(init[j], path) is Some);
                        }
                    }
                },
            }
        }
    }
}

/// A list of route patterns tried in the order they were added.
pub struct RouteMatcher {
    patterns: Vec<RoutePattern>,
}

impl RouteMatcher {
    /// The patterns, in the order they were added.
    pub closed spec fn patterns(&self) -> Seq<RoutePattern> {
        self.patterns@
    }

    /// A matcher with no patterns.
    pub fn new() -> (r: RouteMatcher)
        ensures
            r.patterns() == Seq::<RoutePattern>::empty(),
    {
        RouteMatcher { patterns: Vec::new() }
    }

    /// Adds a pattern after the existing ones.
    pub fn add_pattern(&mut self, pattern: RoutePattern)
        ensures
            final(self).patterns() == old(self).patterns().push(pattern),
    {
        self.patterns.push(pattern);
    }

    /// The results of every pattern that matches `path`, in the order the patterns were added.
    pub fn match_path(&self, path: &str) -> (r: Vec<MatchResult>)
        ensures
            r@.len() == all_matches(self.patterns(), path@).len(),
            forall|k: int| #![trigger r@[k]] 0 <= k < r@.len() ==> (r@[k].path@, r@[k].params@) == all_matches(self.patterns(), path@)[k],
    {
        let mut out: Vec<MatchResult> = Vec::new();
        let mut i: usize = 0;
        while i < self.patterns.len()
            invariant
                i <= self.patterns@.len(),
                out@.len() == all_matches(self.patterns@.subrange(0, i as int), path@).len(),
                forall|k: int| #![trigger out@[k]] 0 <= k < out@.len() ==> (out@[k].path@, out@[k].params@) == all_matches(self.patterns@.subrange(0, i as int), path@)[k],
            decreases self.patterns.len() - i,
        {
            let ghost before = all_matches(self.patterns@.subrange(0, i as int), path@);
            let ghost old_out = out@;
            assert(self.patterns@.subrange(0, i + 1).drop_last() =~= self.patterns@.subrange(0, i as int));
            let r = self.patterns[i].match_path(path);
            match r {
                Some(m) => {
                    out.push(m);
                    assert forall|k: int| #![trigger out@[k]] 0 <= k < out@.len() implies (out@[k].path@, out@[k].params@) == all_matches(self.patterns@.subrange(0, i + 1), path@)[k] by {
                        if k < old_out.len() {
                            assert(out@[k] == old_out[k]);
                        }
                    };
                },
                None => {},
            }
            i = i + 1;
        }
        assert(self.patterns@.subrange(0, i as int) =~= self.patterns@);
        out
    }

    /// The best match for `path`: exact over parameterized over wildcard,
    /// the earliest added among equals.
    pub fn find_best_match(&self, path: &str) -> (r: Option<MatchResult>)
        ensures
            match r {
                Some(m) => best_match(self.patterns(), path@) is Some
                    && (best_match(self.patterns(), path@)->0).0 == (m.path@, m.params@),
                None => best_match(self.patterns(), path@) is None,
            },
            (r is None) <==> (forall|i: int| 0 <= i < self.patterns().len() ==> #[trigger] pattern_match(self.patterns()[i], path@) is None),
            r matches Some(m) ==> exists|i: int| #[trigger] is_best_at(self.patterns(), path@, i)
                && pattern_match(self.patterns()[i], path@) == Some((m.path@, m.params@)),
    {
        proof { lemma_best_match_highest(self.patterns@, path@); }
        let mut best: Option<(MatchResult, u8)> = None;
        let mut i: usize = 0;
        while i < self.patterns.len()
            invariant
                i <= self.patterns@.len(),
                match best {
                    Some(b) => best_match(self.patterns@.subrange(0, i as int), path@) == Some(((b.0.path@, b.0.params@), b.1 as int)),
                    None => best_match(self.patterns@.subrange(0, i as int), path@) is None,
                },
            decreases self.patterns.len() - i,
        {
            assert(self.patterns@.subrange(0, i + 1).drop_last() =~= self.patterns@.subrange(0, i as int));
            let pattern = &self.patterns[i];
            let prio: u8 = match pattern {
                RoutePattern::Exact(_) => 3,
                RoutePattern::Parameterized { .. } => 2,
                RoutePattern::Wildcard { .. } => 1,
            };
            match pattern.match_path(path) {
                Some(m) => {
                    let keep = match &best {
                        Some(b) => prio <= b.1,
                        None => false,
                    };
                    if !keep {
                        best = Some((m, prio));
                    }
                },
                None => {},
            }
            i = i + 1;
        }
        assert(self.patterns@.subrange(0, i as int) =~= self.patterns@);
        match best {
            Some(b) => Some(b.0),
            None => None,
        }
    }
}

} // verus!

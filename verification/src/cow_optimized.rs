//! Route patterns, string building and path helpers that borrow their input where they can.
use vstd::prelude::*;
use std::borrow::Cow;
use std::sync::Arc;
use crate::text::{join_with, contains_seq, contains_str, bump, bump_exec, byte_len, str_byte_len, decimal, digit_char, decimal_string, lemma_decimal_len, segments, split_segment_slices, chars_of, contains_char, find_char_index, find_from, lemma_find_from, lemma_find_from_unique,
    is_prefix, owned, starts_with, str_eq, substring, is_piece, lemma_segments_push_piece, lemma_segments_root,
    lemma_segments_are_pieces, lemma_segments_of_joined};
use crate::param_map::{ParamMap, assoc_insert};
use crate::cache::{keys_unique, cache_put, entry_index, cached_value};
use crate::route_matcher::{param_names, pattern_kind_of, wildcard_capture, capture_slices_backwards,
    lemma_no_capture_without_braces};

verus! {

/// The outcome of scanning a `{param}` pattern against a path character by character,
/// from pattern position `pi` and path position `qi`, with the parameters `acc` found so far.
/// `{name}` in the pattern takes the path up to the next `/`; a `/` right after the
/// parameter is skipped on both sides; other characters must be equal.
pub open spec fn scan(pat: Seq<char>, pth: Seq<char>, pi: int, qi: int, acc: Seq<(Seq<char>, Seq<char>)>) -> Option<Seq<(Seq<char>, Seq<char>)>>
    decreases pat.len() - pi,
{
    if !(0 <= pi && 0 <= qi && qi <= pth.len()) {
        None
    } else if pi < pat.len() && qi < pth.len() {
        if pat[pi] == '{' {
            let close = find_from(pat, '}', pi + 1);
            if close >= pat.len() || close < pi + 1 {
                None
            } else {
                let name = pat.subrange(pi + 1, close);
                let vend = find_from(pth, '/', qi);
                let value = if qi <= vend && vend <= pth.len() { pth.subrange(qi, vend) } else { Seq::<char>::empty() };
                let npi = if close + 1 < pat.len() && pat[close + 1] == '/' { close + 2 } else { close + 1 };
                let nqi = if vend < pth.len() && pth[vend] == '/' { vend + 1 } else { vend };
                scan(pat, pth, npi, nqi, assoc_insert(acc, name, value))
            }
        } else if pat[pi] != pth[qi] {
            None
        } else {
            scan(pat, pth, pi + 1, qi + 1, acc)
        }
    } else if pi < pat.len() || qi < pth.len() {
        None
    } else {
        Some(acc)
    }
}

/// Result of a successful match.
#[derive(Debug)]
pub struct OptimizedMatchResult<'a> {
    /// The path that matched.
    pub path: Cow<'a, str>,
    /// The captured path parameters.
    pub params: ParamMap,
}

/// A route pattern that borrows its text when it can.
#[derive(Debug)]
pub enum CowRoutePattern<'a> {
    /// Matches one path exactly.
    Exact(Cow<'a, str>),
    /// Matches with `{name}` parameters.
    Parameterized { pattern: Cow<'a, str>, param_names: Vec<Arc<String>> },
    /// Matches every path that starts with `prefix`.
    Wildcard { prefix: Cow<'a, str>, capture_name: Option<Arc<String>> },
}

/// What matching `path` against `p` gives: the captured parameters.
pub open spec fn cow_match(p: CowRoutePattern, path: Seq<char>) -> Option<Seq<(Seq<char>, Seq<char>)>> {
    match p {
        CowRoutePattern::Exact(s) => if s@ == path { Some(Seq::<(Seq<char>, Seq<char>)>::empty()) } else { None },
        CowRoutePattern::Parameterized { pattern, .. } => scan(pattern@, path, 0, 0, Seq::<(Seq<char>, Seq<char>)>::empty()),
        CowRoutePattern::Wildcard { prefix, capture_name } => if is_prefix(prefix@, path) {
            Some(match capture_name {
                Some(n) => assoc_insert(Seq::<(Seq<char>, Seq<char>)>::empty(), n@, path.subrange(prefix@.len() as int, path.len() as int)),
                None => Seq::<(Seq<char>, Seq<char>)>::empty(),
            })
        } else {
            None
        },
    }
}

/// An exact pattern matches a path exactly when the path is its text, and then captures
/// nothing; a wildcard pattern matches exactly the paths that start with its prefix.
pub proof fn lemma_exact_and_prefix_matches(p: CowRoutePattern, path: Seq<char>)
    ensures
        p matches CowRoutePattern::Exact(s) ==> ((cow_match(p, path) is Some) <==> s@ == path)
            && (cow_match(p, path) matches Some(ps) ==> ps.len() == 0),
        p matches CowRoutePattern::Wildcard { prefix, .. } ==> ((cow_match(p, path) is Some) <==> is_prefix(prefix@, path)),
{
}

/// No captured value holds a `/`.
pub open spec fn values_slash_free(ps: Seq<(Seq<char>, Seq<char>)>) -> bool {
    forall|i: int, j: int| 0 <= i < ps.len() && 0 <= j < ps[i].1.len() ==> #[trigger] ps[i].1[j] != '/'
}

proof fn lemma_scan_slash_free(pat: Seq<char>, pth: Seq<char>, pi: int, qi: int, acc: Seq<(Seq<char>, Seq<char>)>)
    requires
        values_slash_free(acc),
    ensures
        scan(pat, pth, pi, qi, acc) matches Some(ps) ==> values_slash_free(ps),
    decreases pat.len() - pi,
{
    if 0 <= pi && 0 <= qi && qi <= pth.len() && pi < pat.len() && qi < pth.len() {
        if pat[pi] == '{' {
            let close = find_from(pat, '}', pi + 1);
            if !(close >= pat.len() || close < pi + 1) {
                let name = pat.subrange(pi + 1, close);
                let vend = find_from(pth, '/', qi);
                lemma_find_from(pth, '/', qi);
                let value = pth.subrange(qi, vend);
                let npi = if close + 1 < pat.len() && pat[close + 1] == '/' { close + 2 } else { close + 1 };
                let nqi = if vend < pth.len() && pth[vend] == '/' { vend + 1 } else { vend };
                let acc2 = assoc_insert(acc, name, value);
                assert forall|i: int, j: int| 0 <= i < acc2.len() && 0 <= j < acc2[i].1.len()
                    implies #[trigger] acc2[i].1[j] != '/' by {
                    if acc2[i].1 != value {
                        assert(acc2[i] == acc[i]);
                    } else {
                        assert(value[j] == pth[qi + j]);
                    }
                }
                lemma_scan_slash_free(pat, pth, npi, nqi, acc2);
            }
        } else if pat[pi] == pth[qi] {
            lemma_scan_slash_free(pat, pth, pi + 1, qi + 1, acc);
        }
    }
}

/// Matching a pattern whose wildcard captures nothing (as every pattern `from_str` and
/// `from_owned` build) never captures a value holding `/`: a parameter takes a path
/// segment at most. Exact and wildcard patterns capture nothing at all.
pub proof fn lemma_match_captures_no_slash(p: CowRoutePattern, path: Seq<char>)
    requires
        p matches CowRoutePattern::Wildcard { capture_name, .. } ==> capture_name is None,
    ensures
        cow_match(p, path) matches Some(ps) ==> values_slash_free(ps),
        !(p is Parameterized) ==> (cow_match(p, path) matches Some(ps) ==> ps.len() == 0),
{
    match p {
        CowRoutePattern::Parameterized { pattern, .. } => {
            lemma_scan_slash_free(pattern@, path, 0, 0, Seq::<(Seq<char>, Seq<char>)>::empty());
        },
        _ => {},
    }
}

/// The kind number of a pattern (as `pattern_kind_of` numbers them).
pub open spec fn cow_kind(p: CowRoutePattern) -> int {
    match p {
        CowRoutePattern::Exact(_) => 3,
        CowRoutePattern::Parameterized { .. } => 2,
        CowRoutePattern::Wildcard { .. } => 1,
    }
}

/// The shape `from_str` / `from_owned` give a pattern built from `path`.
pub open spec fn cow_pattern_of(p: CowRoutePattern, path: Seq<char>) -> bool {
    &&& pattern_kind_of(path) == cow_kind(p)
    &&& match p {
        CowRoutePattern::Exact(s) => s@ == path,
        CowRoutePattern::Parameterized { pattern, param_names: names } =>
            pattern@ == path && names@.len() == param_names(path).len()
            && forall|k: int| #![trigger names@[k]] 0 <= k < names@.len() ==> names@[k]@ == param_names(path)[k],
        CowRoutePattern::Wildcard { prefix, capture_name } =>
            prefix@ == path.subrange(0, find_from(path, '*', 0)) && capture_name is None,
    }
}

fn shared_names(names: Vec<String>) -> (r: Vec<Arc<String>>)
    ensures
        r@.len() == names@.len(),
        forall|k: int| #![trigger r@[k]] 0 <= k < r@.len() ==> r@[k]@ == names@[k]@,
{
    let mut r: Vec<Arc<String>> = Vec::new();
    let mut i: usize = 0;
    while i < names.len()
        invariant
            i <= names@.len(),
            r@.len() == i,
            forall|k: int| #![trigger r@[k]] 0 <= k < i ==> r@[k]@ == names@[k]@,
        decreases names.len() - i,
    {
        r.push(Arc::new(names[i].clone()));
        i = i + 1;
    }
    r
}

impl<'a> CowRoutePattern<'a> {
    /// A pattern borrowing `path`: `{..}` makes it parameterized, else `*` makes it a
    /// wildcard on the text before the first `*`, else it matches exactly.
    pub fn from_str(path: &'a str) -> (r: CowRoutePattern<'a>)
        ensures
            cow_pattern_of(r, path@),
            match r {
                CowRoutePattern::Exact(s) => s is Borrowed,
                CowRoutePattern::Parameterized { pattern, .. } => pattern is Borrowed,
                CowRoutePattern::Wildcard { prefix, .. } => prefix is Borrowed,
            },
    {
        if contains_char(path, '{') && contains_char(path, '}') {
            let names = Self::extract_param_names(path);
            CowRoutePattern::Parameterized { pattern: Cow::Borrowed(path), param_names: names }
        } else if contains_char(path, '*') {
            let end = match find_char_index(path, '*') { Some(i) => i, None => 0 };
            proof { lemma_find_from(path@, '*', 0); }
            let prefix = path.substring_char(0, end);
            proof { lemma_no_capture_without_braces(path@); }
            let capture = Self::extract_wildcard_name(path);
            CowRoutePattern::Wildcard { prefix: Cow::Borrowed(prefix), capture_name: capture }
        } else {
            CowRoutePattern::Exact(Cow::Borrowed(path))
        }
    }

    /// A pattern owning the text of `path`, classified as `from_str` does.
    pub fn from_owned(path: String) -> (r: CowRoutePattern<'a>)
        ensures
            cow_pattern_of(r, path@),
            match r {
                CowRoutePattern::Exact(s) => s is Owned,
                CowRoutePattern::Parameterized { pattern, .. } => pattern is Owned,
                CowRoutePattern::Wildcard { prefix, .. } => prefix is Owned,
            },
    {
        let p = path.as_str();
        if contains_char(p, '{') && contains_char(p, '}') {
            let names = Self::extract_param_names(p);
            CowRoutePattern::Parameterized { pattern: Cow::Owned(owned(p)), param_names: names }
        } else if contains_char(p, '*') {
            let end = match find_char_index(p, '*') { Some(i) => i, None => 0 };
            proof { lemma_find_from(path@, '*', 0); }
            let prefix = substring(p, 0, end);
            proof { lemma_no_capture_without_braces(p@); }
            let capture = Self::extract_wildcard_name(p);
            CowRoutePattern::Wildcard { prefix: Cow::Owned(prefix), capture_name: capture }
        } else {
            CowRoutePattern::Exact(Cow::Owned(path))
        }
    }

    /// The parameter names of a pattern, shared.
    fn extract_param_names(path: &str) -> (r: Vec<Arc<String>>)
        ensures
            r@.len() == param_names(path@).len(),
            forall|k: int| #![trigger r@[k]] 0 <= k < r@.len() ==> r@[k]@ == param_names(path@)[k],
    {
        shared_names(crate::route_matcher::RoutePattern::extract_param_names(path))
    }

    /// The name of a `{*name}` capture (see `wildcard_capture`), shared.
    fn extract_wildcard_name(path: &str) -> (r: Option<Arc<String>>)
        requires
            !capture_slices_backwards(path@),
        ensures
            match wildcard_capture(path@) {
                Some(name) => r matches Some(x) && (*x)@ == name,
                None => r is None,
            },
    {
        match crate::route_matcher::RoutePattern::extract_wildcard_name(path) {
            Some(name) => Some(Arc::new(name)),
            None => None,
        }
    }
}


/// The text of a `Cow<str>`.
pub fn cow_str<'b>(c: &'b Cow<'_, str>) -> (r: &'b str)
    ensures
        r@ == c@,
{
    match c {
        Cow::Borrowed(s) => s,
        Cow::Owned(s) => s.as_str(),
    }
}

impl<'a> CowRoutePattern<'a> {
    /// Matches `path` against this pattern.
    pub fn match_path(&self, path: &'a str) -> (r: Option<OptimizedMatchResult<'a>>)
        ensures
            match r {
                Some(m) => cow_match(*self, path@) == Some(m.params@) && m.path is Borrowed && m.path@ == path@,
                None => cow_match(*self, path@) is None,
            },
            self matches CowRoutePattern::Exact(s) ==> ((r is Some) <==> s@ == path@),
            self matches CowRoutePattern::Wildcard { prefix, .. } ==> ((r is Some) <==> is_prefix(prefix@, path@)),
    {
        match self {
            CowRoutePattern::Exact(pattern) => {
                if str_eq(cow_str(pattern), path) {
                    Some(OptimizedMatchResult { path: Cow::Borrowed(path), params: ParamMap::new() })
                } else {
                    None
                }
            },
            CowRoutePattern::Parameterized { pattern, .. } => {
                let ps = cow_str(pattern);
                let a = chars_of(ps);
                let b = chars_of(path);
                let ghost pat = ps@;
                let ghost pth = path@;
                let mut params = ParamMap::new();
                let mut pi: usize = 0;
                let mut qi: usize = 0;
                while pi < a.len() && qi < b.len()
                    invariant
                        a@ == pat,
                        b@ == pth,
                        pat == ps@,
                        pth == path@,
                        cow_match(*self, path@) == scan(pat, pth, 0, 0, Seq::<(Seq<char>, Seq<char>)>::empty()),
                        pi <= a.len(),
                        qi <= b.len(),
                        scan(pat, pth, 0, 0, Seq::<(Seq<char>, Seq<char>)>::empty()) == scan(pat, pth, pi as int, qi as int, params@),
                    decreases a.len() - pi,
                {
                    if a[pi] == '{' {
                        let start = pi + 1;
                        let mut j: usize = start;
                        while j < a.len() && a[j] != '}'
                            invariant
                                a@ == pat,
                                start <= j <= a.len(),
                                forall|k: int| start <= k < j ==> pat[k] != '}',
                            decreases a.len() - j,
                        {
                            j = j + 1;
                        }
                        proof { lemma_find_from_unique(pat, '}', start as int, j as int); }
                        if j >= a.len() {
                            return None;
                        }
                        let name = substring(ps, start, j);
                        let mut e: usize = qi;
                        while e < b.len() && b[e] != '/'
                            invariant
                                b@ == pth,
                                qi <= e <= b.len(),
                                forall|k: int| qi <= k < e ==> pth[k] != '/',
                            decreases b.len() - e,
                        {
                            e = e + 1;
                        }
                        proof { lemma_find_from_unique(pth, '/', qi as int, e as int); }
                        let value = substring(path, qi, e);
                        params.insert(name, value);
                        pi = if j + 1 < a.len() && a[j + 1] == '/' { j + 2 } else { j + 1 };
                        qi = if e < b.len() && b[e] == '/' { e + 1 } else { e };
                    } else if a[pi] != b[qi] {
                        return None;
                    } else {
                        pi = pi + 1;
                        qi = qi + 1;
                    }
                }
                if pi < a.len() || qi < b.len() {
                    return None;
                }
                Some(OptimizedMatchResult { path: Cow::Borrowed(path), params })
            },
            CowRoutePattern::Wildcard { prefix, capture_name } => {
                let pre = cow_str(prefix);
                if starts_with(path, pre) {
                    let len = path.unicode_len();
                    let plen = pre.unicode_len();
                    let captured_text = substring(path, plen, len);
                    let mut params = ParamMap::new();
                    match capture_name {
                        Some(n) => { params.insert(owned(n.as_str()), captured_text); },
                        None => {},
                    }
                    Some(OptimizedMatchResult { path: Cow::Borrowed(path), params })
                } else {
                    None
                }
            },
        }
    }

    /// The pattern text (for a wildcard, its prefix).
    pub fn as_str(&self) -> (r: &str)
        ensures
            r@ == match *self {
                CowRoutePattern::Exact(s) => s@,
                CowRoutePattern::Parameterized { pattern, .. } => pattern@,
                CowRoutePattern::Wildcard { prefix, .. } => prefix@,
            },
    {
        match self {
            CowRoutePattern::Exact(s) => cow_str(s),
            CowRoutePattern::Parameterized { pattern, .. } => cow_str(pattern),
            CowRoutePattern::Wildcard { prefix, .. } => cow_str(prefix),
        }
    }
}


/// A piece of text to be joined by a `StringFragmentBuilder`.
#[derive(Debug)]
pub enum StringFragment<'a> {
    /// Borrowed text.
    Borrowed(&'a str),
    /// Owned text.
    Owned(String),
    /// A number, written in decimal.
    Number(usize),
    /// Shared text.
    Arc(Arc<String>),
}

/// The text a fragment stands for.
pub open spec fn fragment_text(f: StringFragment) -> Seq<char> {
    match f {
        StringFragment::Borrowed(s) => s@,
        StringFragment::Owned(s) => s@,
        StringFragment::Number(n) => decimal(n as nat),
        StringFragment::Arc(s) => s@,
    }
}

/// The byte length of a fragment's text (`str::len`).
pub open spec fn fragment_len(f: StringFragment) -> int {
    match f {
        StringFragment::Number(n) => decimal(n as nat).len() as int,
        _ => byte_len(fragment_text(f)) as int,
    }
}

/// The fragments' texts one after another.
pub open spec fn fragments_text(fs: Seq<StringFragment>) -> Seq<char>
    decreases fs.len(),
{
    if fs.len() == 0 {
        Seq::<char>::empty()
    } else {
        fragments_text(fs.drop_last()) + fragment_text(fs.last())
    }
}

/// The sum of the fragments' byte lengths.
pub open spec fn fragments_len(fs: Seq<StringFragment>) -> int
    decreases fs.len(),
{
    if fs.len() == 0 {
        0
    } else {
        fragments_len(fs.drop_last()) + fragment_len(fs.last())
    }
}

/// The UTF-8 encoding of joined texts is the joined encodings.
proof fn lemma_encode_concat(a: Seq<char>, b: Seq<char>)
    ensures
        vstd::utf8::encode_utf8(a + b) == vstd::utf8::encode_utf8(a) + vstd::utf8::encode_utf8(b),
    decreases a.len(),
{
    if a.len() == 0 {
        assert(a + b =~= b);
        assert(Seq::<u8>::empty() + vstd::utf8::encode_utf8(b) =~= vstd::utf8::encode_utf8(b));
    } else {
        lemma_encode_concat(a.drop_first(), b);
        assert((a + b).drop_first() =~= a.drop_first() + b);
        assert((a + b)[0] == a[0]);
        let h = vstd::utf8::encode_scalar(a[0] as u32);
        assert(h + (vstd::utf8::encode_utf8(a.drop_first()) + vstd::utf8::encode_utf8(b))
            =~= (h + vstd::utf8::encode_utf8(a.drop_first())) + vstd::utf8::encode_utf8(b));
    }
}

/// A decimal numeral is ASCII, so it takes one byte per digit.
proof fn lemma_decimal_ascii(n: nat)
    ensures
        vstd::utf8::encode_utf8(decimal(n)).len() == decimal(n).len(),
    decreases n,
{
    assert(vstd::utf8::is_ascii_chars(decimal(n))) by {
        lemma_decimal_digits(n);
    }
    vstd::utf8::is_ascii_chars_encode_utf8(decimal(n));
}

proof fn lemma_decimal_digits(n: nat)
    ensures
        forall|i: int| 0 <= i < decimal(n).len() ==> '0' <= #[trigger] decimal(n)[i] <= '9',
    decreases n,
{
    if n >= 10 {
        lemma_decimal_digits(n / 10);
        lemma_digit_char(n % 10);
        let p = decimal(n / 10);
        assert forall|i: int| 0 <= i < decimal(n).len() implies '0' <= #[trigger] decimal(n)[i] <= '9' by {
            if i < p.len() {
                assert(decimal(n)[i] == p[i]);
            }
        }
    } else {
        lemma_digit_char(n);
    }
}

proof fn lemma_digit_char(d: nat)
    requires
        d < 10,
    ensures
        '0' <= digit_char(d) <= '9',
{
    if d == 0 {} else if d == 1 {} else if d == 2 {} else if d == 3 {} else if d == 4 {}
    else if d == 5 {} else if d == 6 {} else if d == 7 {} else if d == 8 {} else {}
}

/// The fragment's text is one that fits in memory.
pub open spec fn fragment_fits(f: StringFragment) -> bool {
    vstd::utf8::encode_utf8(fragment_text(f)).len() <= usize::MAX
}

/// A decimal numeral has at most `n` digits (one for zero).
proof fn lemma_decimal_len_bound(n: nat)
    ensures
        decimal(n).len() <= if n == 0 { 1 } else { n },
    decreases n,
{
    if n >= 10 {
        lemma_decimal_len_bound(n / 10);
    }
}

/// The joined text takes as many bytes as the fragments' lengths add up to, so `build`
/// gives a string of `capacity()` bytes (each fragment's text being one that fits in memory).
pub proof fn lemma_built_len(fs: Seq<StringFragment>)
    requires
        forall|i: int| 0 <= i < fs.len() ==> fragment_fits(#[trigger] fs[i]),
    ensures
        vstd::utf8::encode_utf8(fragments_text(fs)).len() == fragments_len(fs),
        fragments_len(fs) <= usize::MAX ==> byte_len(fragments_text(fs)) == fragments_len(fs),
    decreases fs.len(),
{
    if fs.len() > 0 {
        let init = fs.drop_last();
        assert forall|i: int| 0 <= i < init.len() implies fragment_fits(#[trigger] init[i]) by {
            assert(init[i] == fs[i]);
        }
        lemma_built_len(init);
        lemma_encode_concat(fragments_text(init), fragment_text(fs.last()));
        assert(fragment_fits(fs[fs.len() - 1]));
        match fs.last() {
            StringFragment::Number(n) => { lemma_decimal_ascii(n as nat); },
            _ => {},
        }
    }
}

proof fn lemma_fragments_len_mono(fs: Seq<StringFragment>, i: int)
    requires
        0 <= i <= fs.len(),
    ensures
        0 <= fragments_len(fs.subrange(0, i)) <= fragments_len(fs),
    decreases fs.len(),
{
    if fs.len() > 0 {
        if i == fs.len() {
            assert(fs.subrange(0, i) =~= fs);
            lemma_fragments_len_mono(fs.drop_last(), fs.len() - 1);
            assert(fs.drop_last().subrange(0, fs.len() - 1) =~= fs.drop_last());
        } else {
            lemma_fragments_len_mono(fs.drop_last(), i);
            assert(fs.drop_last().subrange(0, i) =~= fs.subrange(0, i));
        }
    }
}

impl<'a> StringFragment<'a> {
    /// The byte length of this fragment's text.
    pub fn len(&self) -> (r: usize)
        ensures
            r as int == fragment_len(*self),
    {
        match self {
            StringFragment::Borrowed(s) => str_byte_len(s),
            StringFragment::Owned(s) => str_byte_len(s.as_str()),
            StringFragment::Number(n) => {
                let t = decimal_string(*n);
                t.unicode_len()
            },
            StringFragment::Arc(s) => str_byte_len(s.as_str()),
        }
    }

    fn push_to(&self, out: &mut String)
        ensures
            final(out)@ == old(out)@ + fragment_text(*self),
    {
        match self {
            StringFragment::Borrowed(s) => out.append(s),
            StringFragment::Owned(s) => out.append(s.as_str()),
            StringFragment::Number(n) => {
                let t = decimal_string(*n);
                out.append(t.as_str());
            },
            StringFragment::Arc(s) => out.append(s.as_str()),
        }
    }
}

/// Collects fragments and joins them into one string at the end.
#[derive(Debug)]
pub struct StringFragmentBuilder<'a> {
    fragments: Vec<StringFragment<'a>>,
}

impl<'a> StringFragmentBuilder<'a> {
    /// The fragments added so far, in order.
    pub closed spec fn fragments(&self) -> Seq<StringFragment<'a>> {
        self.fragments@
    }

    /// Every fragment's text is one that fits in memory (its UTF-8 form has at most
    /// `usize::MAX` bytes), as the text of every string does.
    pub closed spec fn wf(&self) -> bool {
        forall|i: int| 0 <= i < self.fragments@.len() ==> fragment_fits(#[trigger] self.fragments@[i])
    }

    proof fn lemma_push_wf(&self, f: StringFragment<'a>, after: Self)
        requires
            self.wf(),
            fragment_fits(f),
            after.fragments@ == self.fragments@.push(f),
        ensures
            after.wf(),
    {
        assert forall|i: int| 0 <= i < after.fragments@.len() implies fragment_fits(#[trigger] after.fragments@[i]) by {
            if i < self.fragments@.len() {
                assert(after.fragments@[i] == self.fragments@[i]);
            }
        }
    }

    /// A builder with no fragments.
    pub fn new() -> (r: StringFragmentBuilder<'a>)
        ensures
            r.fragments() == Seq::<StringFragment<'a>>::empty(),
            r.wf(),
    {
        StringFragmentBuilder { fragments: Vec::new() }
    }

    /// Adds borrowed text.
    pub fn push_borrowed(&mut self, s: &'a str)
        ensures
            final(self).fragments() == old(self).fragments().push(StringFragment::Borrowed(s)),
            old(self).wf() ==> final(self).wf(),
    {
        let b = s.as_bytes();
        assert(fragment_fits(StringFragment::Borrowed(s))) by {
            assert(b@.len() == vstd::slice::spec_slice_len(b));
        }
        let ghost before = *self;
        self.fragments.push(StringFragment::Borrowed(s));
        proof { if before.wf() { before.lemma_push_wf(StringFragment::Borrowed(s), *self); } }
    }

    /// Adds owned text.
    pub fn push_owned(&mut self, s: String)
        ensures
            final(self).fragments() == old(self).fragments().push(StringFragment::Owned(s)),
            old(self).wf() ==> final(self).wf(),
    {
        let b = s.as_str().as_bytes();
        assert(fragment_fits(StringFragment::Owned(s))) by {
            assert(b@.len() == vstd::slice::spec_slice_len(b));
        }
        let ghost before = *self;
        let ghost f = StringFragment::Owned(s);
        self.fragments.push(StringFragment::Owned(s));
        proof { if before.wf() { before.lemma_push_wf(f, *self); } }
    }

    /// Adds a number.
    pub fn push_number(&mut self, n: usize)
        ensures
            final(self).fragments() == old(self).fragments().push(StringFragment::Number(n)),
            old(self).wf() ==> final(self).wf(),
    {
        proof {
            lemma_decimal_ascii(n as nat);
            lemma_decimal_len_bound(n as nat);
        }
        let ghost before = *self;
        self.fragments.push(StringFragment::Number(n));
        proof { if before.wf() { before.lemma_push_wf(StringFragment::Number(n), *self); } }
    }

    /// Adds shared text.
    pub fn push_arc(&mut self, s: Arc<String>)
        ensures
            final(self).fragments() == old(self).fragments().push(StringFragment::Arc(s)),
            old(self).wf() ==> final(self).wf(),
    {
        let b = s.as_str().as_bytes();
        assert(fragment_fits(StringFragment::Arc(s))) by {
            assert(b@.len() == vstd::slice::spec_slice_len(b));
        }
        let ghost before = *self;
        let ghost f = StringFragment::Arc(s);
        self.fragments.push(StringFragment::Arc(s));
        proof { if before.wf() { before.lemma_push_wf(f, *self); } }
    }

    /// The built text takes exactly `capacity()` bytes, whatever was pushed.
    pub proof fn lemma_build_len(&self)
        requires
            self.wf(),
        ensures
            vstd::utf8::encode_utf8(fragments_text(self.fragments())).len() == fragments_len(self.fragments()),
            fragments_len(self.fragments()) <= usize::MAX ==> byte_len(fragments_text(self.fragments())) == fragments_len(self.fragments()),
    {
        lemma_built_len(self.fragments@);
    }

    /// The byte length of the joined text.
    pub fn capacity(&self) -> (r: usize)
        requires
            fragments_len(self.fragments()) <= usize::MAX,
        ensures
            r as int == fragments_len(self.fragments()),
    {
        let mut total: usize = 0;
        let mut i: usize = 0;
        while i < self.fragments.len()
            invariant
                i <= self.fragments@.len(),
                fragments_len(self.fragments@) <= usize::MAX,
                total as int == fragments_len(self.fragments@.subrange(0, i as int)),
            decreases self.fragments.len() - i,
        {
            let l = self.fragments[i].len();
            proof {
                assert(self.fragments@.subrange(0, i + 1).drop_last() =~= self.fragments@.subrange(0, i as int));
                lemma_fragments_len_mono(self.fragments@, i + 1);
            }
            total = total + l;
            i = i + 1;
        }
        assert(self.fragments@.subrange(0, i as int) =~= self.fragments@);
        total
    }

    /// The fragments' texts joined into one string.
    pub fn build(&self) -> (r: String)
        ensures
            r@ == fragments_text(self.fragments()),
    {
        let mut result = String::new();
        let mut i: usize = 0;
        while i < self.fragments.len()
            invariant
                i <= self.fragments@.len(),
                result@ == fragments_text(self.fragments@.subrange(0, i as int)),
            decreases self.fragments.len() - i,
        {
            assert(self.fragments@.subrange(0, i + 1).drop_last() =~= self.fragments@.subrange(0, i as int));
            self.fragments[i].push_to(&mut result);
            i = i + 1;
        }
        assert(self.fragments@.subrange(0, i as int) =~= self.fragments@);
        result
    }

    /// The joined text, borrowed when the builder holds exactly one borrowed fragment.
    pub fn build_cow(&self) -> (r: Cow<'a, str>)
        ensures
            r@ == fragments_text(self.fragments()),
            (r is Borrowed) <==> (self.fragments().len() == 1 && self.fragments()[0] is Borrowed),
    {
        if self.fragments.len() == 1 {
            match &self.fragments[0] {
                StringFragment::Borrowed(s) => {
                    assert(self.fragments@.drop_last() =~= Seq::<StringFragment<'a>>::empty());
                    assert(fragments_text(self.fragments@.drop_last()) =~= Seq::<char>::empty());
                    assert(self.fragments@.last() == StringFragment::Borrowed(*s));
                    assert(fragments_text(self.fragments@) == fragments_text(self.fragments@.drop_last()) + fragment_text(self.fragments@.last()));
                    assert(fragments_text(self.fragments@) =~= s@);
                    Cow::Borrowed(*s)
                },
                _ => Cow::Owned(self.build()),
            }
        } else {
            Cow::Owned(self.build())
        }
    }
}

impl<'a> Default for StringFragmentBuilder<'a> {
    fn default() -> (r: StringFragmentBuilder<'a>)
        ensures
            r.fragments() == Seq::<StringFragment<'a>>::empty(),
    {
        Self::new()
    }
}

/// Reads parameters and segments out of one path without copying it.
pub struct ParamExtractor<'a> {
    path: &'a str,
}

impl<'a> ParamExtractor<'a> {
    /// The path being read.
    pub closed spec fn path(&self) -> Seq<char> {
        self.path@
    }

    /// An extractor for `path`.
    pub fn new(path: &'a str) -> (r: ParamExtractor<'a>)
        ensures
            r.path() == path@,
    {
        ParamExtractor { path }
    }

    /// The non-empty `/`-separated segments of the path, borrowed from it.
    pub fn extract_segments(&self) -> (r: Vec<Cow<'a, str>>)
        ensures
            r@.len() == segments(self.path()).len(),
            forall|k: int| #![trigger r@[k]] 0 <= k < r@.len() ==> r@[k]@ == segments(self.path())[k] && r@[k] is Borrowed,
    {
        let parts = split_segment_slices(self.path);
        let mut r: Vec<Cow<'a, str>> = Vec::new();
        let mut k: usize = 0;
        while k < parts.len()
            invariant
                parts@.len() == segments(self.path@).len(),
                forall|j: int| 0 <= j < parts@.len() ==> #[trigger] parts@[j]@ == segments(self.path@)[j],
                k <= parts@.len(),
                r@.len() == k,
                forall|j: int| #![trigger r@[j]] 0 <= j < k ==> r@[j]@ == segments(self.path@)[j] && r@[j] is Borrowed,
            decreases parts.len() - k,
        {
            r.push(Cow::Borrowed(parts[k]));
            k = k + 1;
        }
        r
    }

    /// The parameters `pattern` captures from the path, if it matches.
    pub fn extract_params(&self, pattern: &CowRoutePattern<'a>) -> (r: Option<ParamMap>)
        ensures
            match r {
                Some(m) => cow_match(*pattern, self.path()) == Some(m@),
                None => cow_match(*pattern, self.path()) is None,
            },
    {
        match pattern.match_path(self.path) {
            Some(result) => Some(result.params),
            None => None,
        }
    }

    /// Whether the path matches `pattern`.
    pub fn matches(&self, pattern: &CowRoutePattern<'a>) -> (r: bool)
        ensures
            r == cow_match(*pattern, self.path()) is Some,
    {
        pattern.match_path(self.path).is_some()
    }
}


/// Joins `segments` with `separator`; borrows when there is nothing to join.
pub fn join_cow<'a>(segments: &[Cow<'a, str>], separator: &str) -> (r: Cow<'a, str>)
    ensures
        r@ == join_with(segments@.map_values(|c: Cow<'a, str>| c@), separator@),
        (r is Borrowed) <==> (segments@.len() == 0 || (segments@.len() == 1 && segments@[0] is Borrowed)),
{
    let ghost views = segments@.map_values(|c: Cow<'a, str>| c@);
    if segments.len() == 0 {
        proof { reveal_strlit(""); }
        assert(""@ =~= Seq::<char>::empty());
        return Cow::Borrowed("");
    }
    if segments.len() == 1 {
        return match &segments[0] {
            Cow::Borrowed(s) => Cow::Borrowed(*s),
            Cow::Owned(s) => Cow::Owned(s.clone()),
        };
    }
    let mut result = owned(cow_str(&segments[0]));
    let mut i: usize = 1;
    assert(views.subrange(0, 1) =~= seq![views[0]]);
    while i < segments.len()
        invariant
            1 <= i <= segments@.len(),
            views == segments@.map_values(|c: Cow<'a, str>| c@),
            result@ == join_with(views.subrange(0, i as int), separator@),
        decreases segments.len() - i,
    {
        assert(views.subrange(0, i + 1).drop_last() =~= views.subrange(0, i as int));
        result.append(separator);
        result.append(cow_str(&segments[i]));
        i = i + 1;
    }
    assert(views.subrange(0, i as int) =~= views);
    Cow::Owned(result)
}

/// The segments kept by path normalisation: `.` is dropped and `..` removes the segment
/// before it (if any).
pub open spec fn norm_stack(segs: Seq<Seq<char>>) -> Seq<Seq<char>>
    decreases segs.len(),
{
    if segs.len() == 0 {
        Seq::<Seq<char>>::empty()
    } else {
        let st = norm_stack(segs.drop_last());
        let last = segs.last();
        if last == seq!['.'] {
            st
        } else if last == seq!['.', '.'] {
            if st.len() > 0 { st.drop_last() } else { st }
        } else {
            st.push(last)
        }
    }
}

/// Whether a path needs normalising: it holds `//`, `/./` or `/../`.
pub open spec fn needs_normalizing(path: Seq<char>) -> bool {
    contains_seq(path, seq!['/', '/']) || contains_seq(path, seq!['/', '.', '/']) || contains_seq(path, seq!['/', '.', '.', '/'])
}

/// The normalised form of `path`: `/` for an empty path, the path itself when it needs no
/// normalising, and otherwise `/` followed by the kept segments joined with `/`.
pub open spec fn normalized(path: Seq<char>) -> Seq<char> {
    if path.len() == 0 {
        seq!['/']
    } else if !needs_normalizing(path) {
        path
    } else {
        seq!['/'] + join_with(norm_stack(segments(path)), seq!['/'])
    }
}

/// A segment that normalisation keeps as it is: a piece other than `.` and `..`.
pub open spec fn plain_segment(s: Seq<char>) -> bool {
    is_piece(s) && s != seq!['.'] && s != seq!['.', '.']
}

/// Normalisation keeps only plain segments.
proof fn lemma_norm_stack_plain(segs: Seq<Seq<char>>)
    requires
        forall|k: int| 0 <= k < segs.len() ==> is_piece(#[trigger] segs[k]),
    ensures
        forall|k: int| 0 <= k < norm_stack(segs).len() ==> plain_segment(#[trigger] norm_stack(segs)[k]),
    decreases segs.len(),
{
    if segs.len() > 0 {
        let init = segs.drop_last();
        assert forall|k: int| 0 <= k < init.len() implies is_piece(#[trigger] init[k]) by {
            assert(init[k] == segs[k]);
        }
        lemma_norm_stack_plain(init);
        let st = norm_stack(init);
        let last = segs.last();
        assert(is_piece(segs[segs.len() - 1]));
        if last != seq!['.'] && last != seq!['.', '.'] {
            assert forall|k: int| 0 <= k < st.push(last).len() implies plain_segment(#[trigger] st.push(last)[k]) by {
                if k < st.len() {
                    assert(st.push(last)[k] == st[k]);
                }
            }
        } else if last == seq!['.', '.'] && st.len() > 0 {
            assert forall|k: int| 0 <= k < st.drop_last().len() implies plain_segment(#[trigger] st.drop_last()[k]) by {
                assert(st.drop_last()[k] == st[k]);
            }
        }
    }
}

/// Plain segments are kept as they are.
proof fn lemma_norm_stack_plain_id(segs: Seq<Seq<char>>)
    requires
        forall|k: int| 0 <= k < segs.len() ==> plain_segment(#[trigger] segs[k]),
    ensures
        norm_stack(segs) == segs,
    decreases segs.len(),
{
    if segs.len() > 0 {
        let init = segs.drop_last();
        assert forall|k: int| 0 <= k < init.len() implies plain_segment(#[trigger] init[k]) by {
            assert(init[k] == segs[k]);
        }
        lemma_norm_stack_plain_id(init);
        assert(plain_segment(segs[segs.len() - 1]));
        assert(init.push(segs.last()) =~= segs);
    }
}

/// No two `/` in a row, and no `/` at either end.
spec fn single_slashes(x: Seq<char>) -> bool {
    &&& forall|i: int| 0 <= i < x.len() - 1 ==> !(#[trigger] x[i] == '/' && x[i + 1] == '/')
    &&& x.len() > 0 ==> x[0] != '/' && x[x.len() - 1] != '/'
}

/// Pieces joined with `/` have single slashes.
proof fn lemma_joined_single_slashes(st: Seq<Seq<char>>)
    requires
        forall|k: int| 0 <= k < st.len() ==> is_piece(#[trigger] st[k]),
    ensures
        single_slashes(join_with(st, seq!['/'])),
        st.len() > 0 ==> join_with(st, seq!['/']).len() > 0,
    decreases st.len(),
{
    if st.len() == 1 {
        assert(is_piece(st[0]));
    } else if st.len() > 1 {
        let init = st.drop_last();
        assert forall|k: int| 0 <= k < init.len() implies is_piece(#[trigger] init[k]) by {
            assert(init[k] == st[k]);
        }
        lemma_joined_single_slashes(init);
        let a = join_with(init, seq!['/']);
        let y = st.last();
        assert(is_piece(st[st.len() - 1]));
        let x = a + seq!['/'] + y;
        assert(x == join_with(st, seq!['/']));
        assert forall|i: int| 0 <= i < x.len() - 1 implies !(#[trigger] x[i] == '/' && x[i + 1] == '/') by {
            if i < a.len() - 1 {
                assert(x[i] == a[i] && x[i + 1] == a[i + 1]);
            } else if i == a.len() - 1 {
                assert(x[i] == a[i]);
            } else if i == a.len() {
                assert(x[i + 1] == y[0]);
            } else {
                assert(x[i] == y[i - a.len() - 1] && x[i + 1] == y[i - a.len()]);
            }
        }
        assert(x[0] == a[0]);
        assert(x[x.len() - 1] == y[y.len() - 1]);
    }
}

/// A rewritten path holds no `//`.
pub proof fn lemma_normalized_no_double_slash(path: Seq<char>)
    requires
        path.len() > 0,
        needs_normalizing(path),
    ensures
        !contains_seq(normalized(path), seq!['/', '/']),
{
    lemma_segments_are_pieces(path);
    let segs = segments(path);
    lemma_norm_stack_plain(segs);
    let st = norm_stack(segs);
    assert forall|k: int| 0 <= k < st.len() implies is_piece(#[trigger] st[k]) by {
        assert(plain_segment(st[k]));
    }
    lemma_joined_single_slashes(st);
    let j = join_with(st, seq!['/']);
    let r = seq!['/'] + j;
    assert(normalized(path) == r);
    if contains_seq(r, seq!['/', '/']) {
        let i = choose|i: int| crate::text::occurs_at(r, seq!['/', '/'], i);
        assert(r.subrange(i, i + 2) == seq!['/', '/']);
        assert(r[i] == r.subrange(i, i + 2)[0] && r[i + 1] == r.subrange(i, i + 2)[1]);
        if i == 0 {
            assert(r[1] == j[0]);
        } else {
            assert(r[i] == j[i - 1] && r[i + 1] == j[i]);
        }
    }
}

/// Normalising a normalised path changes nothing; a rewritten path starts with `/` and its
/// segments are exactly the kept ones, none of them `.` or `..`.
pub proof fn lemma_normalized_idempotent(path: Seq<char>)
    ensures
        normalized(normalized(path)) == normalized(path),
        needs_normalizing(path) && path.len() > 0 ==> normalized(path)[0] == '/'
            && segments(normalized(path)) == norm_stack(segments(path))
            && forall|k: int| 0 <= k < segments(normalized(path)).len()
                ==> plain_segment(#[trigger] segments(normalized(path))[k]),
{
    if path.len() == 0 {
        let r = seq!['/'];
        assert(!contains_seq(r, seq!['/', '/']));
        assert(!contains_seq(r, seq!['/', '.', '/']));
        assert(!contains_seq(r, seq!['/', '.', '.', '/']));
    } else if needs_normalizing(path) {
        lemma_segments_are_pieces(path);
        let segs = segments(path);
        lemma_norm_stack_plain(segs);
        let st = norm_stack(segs);
        assert forall|k: int| 0 <= k < st.len() implies is_piece(#[trigger] st[k]) by {
            assert(plain_segment(st[k]));
        }
        lemma_segments_of_joined(st);
        lemma_norm_stack_plain_id(st);
        let r = normalized(path);
        assert(r == seq!['/'] + join_with(st, seq!['/']));
        assert(r[0] == '/');
    }
}

/// Normalises a path, borrowing when the result is the input or `/`.
pub fn normalize_path(path: &str) -> (r: Cow<'_, str>)
    ensures
        r@ == normalized(path@),
        (r is Borrowed) <==> (path@.len() == 0 || !needs_normalizing(path@)
            || norm_stack(segments(path@)).len() == 0),
        path@.len() > 0 && needs_normalizing(path@) ==> !contains_seq(r@, seq!['/', '/']),
{
    proof {
        if path@.len() > 0 && needs_normalizing(path@) {
            lemma_normalized_no_double_slash(path@);
        }
    }
    proof {
        reveal_strlit("/");
        reveal_strlit("//");
        reveal_strlit("/./");
        reveal_strlit("/../");
    }
    assert("/"@ =~= seq!['/']);
    assert("//"@ =~= seq!['/', '/']);
    assert("/./"@ =~= seq!['/', '.', '/']);
    assert("/../"@ =~= seq!['/', '.', '.', '/']);
    if path.is_empty() {
        return Cow::Borrowed("/");
    }
    if !contains_str(path, "//") && !contains_str(path, "/./") && !contains_str(path, "/../") {
        return Cow::Borrowed(path);
    }
    let segs = split_segment_slices(path);
    let ghost sv = segments(path@);
    let mut stack: Vec<&str> = Vec::new();
    let mut i: usize = 0;
    while i < segs.len()
        invariant
            segs@.len() == sv.len(),
            sv == segments(path@),
            forall|j: int| 0 <= j < segs@.len() ==> #[trigger] segs@[j]@ == sv[j],
            i <= segs@.len(),
            stack@.map_values(|x: &str| x@) == norm_stack(sv.subrange(0, i as int)),
        decreases segs.len() - i,
    {
        let seg = segs[i];
        let ghost before = stack@.map_values(|x: &str| x@);
        assert(sv.subrange(0, i + 1).drop_last() =~= sv.subrange(0, i as int));
        assert(sv.subrange(0, i + 1).last() == seg@);
        let n = seg.unicode_len();
        let is_dot = n == 1 && seg.get_char(0) == '.';
        let is_dotdot = n == 2 && seg.get_char(0) == '.' && seg.get_char(1) == '.';
        proof {
            if seg@ == seq!['.'] { assert(seg@[0] == '.'); }
            if is_dot { assert(seg@ =~= seq!['.']); }
            if seg@ == seq!['.', '.'] { assert(seg@[0] == '.' && seg@[1] == '.'); }
            if is_dotdot { assert(seg@ =~= seq!['.', '.']); }
        }
        if is_dot {
        } else if is_dotdot {
            if stack.len() > 0 {
                stack.pop();
                assert(stack@.map_values(|x: &str| x@) =~= before.drop_last());
            }
        } else {
            stack.push(seg);
            assert(stack@.map_values(|x: &str| x@) =~= before.push(seg@));
        }
        i = i + 1;
    }
    assert(sv.subrange(0, i as int) =~= sv);
    let ghost st = stack@.map_values(|x: &str| x@);
    if stack.len() == 0 {
        assert(join_with(st, seq!['/']) =~= Seq::<char>::empty());
        assert(seq!['/'] + join_with(st, seq!['/']) =~= seq!['/']);
        return Cow::Borrowed("/");
    }
    let mut result = String::new();
    crate::text::push_char(&mut result, '/');
    result.append(stack[0]);
    let mut k: usize = 1;
    assert(st.subrange(0, 1) =~= seq![st[0]]);
    assert(result@ =~= seq!['/'] + join_with(st.subrange(0, 1), seq!['/']));
    while k < stack.len()
        invariant
            1 <= k <= stack@.len(),
            st == stack@.map_values(|x: &str| x@),
            result@ == seq!['/'] + join_with(st.subrange(0, k as int), seq!['/']),
        decreases stack.len() - k,
    {
        assert(st.subrange(0, k + 1).drop_last() =~= st.subrange(0, k as int));
        let ghost before = result@;
        crate::text::push_char(&mut result, '/');
        result.append(stack[k]);
        assert(result@ =~= seq!['/'] + (join_with(st.subrange(0, k as int), seq!['/']) + seq!['/'] + st[k as int]));
        k = k + 1;
    }
    assert(st.subrange(0, k as int) =~= st);
    Cow::Owned(result)
}

/// A cache from paths to their split segments, counting hits and misses.
#[derive(Debug)]
pub struct PathMatchCache<'a> {
    entries: Vec<(Cow<'a, str>, Vec<Arc<String>>)>,
    hits: usize,
    misses: usize,
}

/// The cached entries as text: each path with its segments.
pub open spec fn cache_view<'a>(e: Seq<(Cow<'a, str>, Vec<Arc<String>>)>) -> Seq<(Seq<char>, Seq<Seq<char>>)> {
    e.map_values(|x: (Cow<'a, str>, Vec<Arc<String>>)| (x.0@, x.1@.map_values(|a: Arc<String>| a@)))
}

/// Whether some entry has path `k`.
pub open spec fn cache_has(e: Seq<(Seq<char>, Seq<Seq<char>>)>, k: Seq<char>) -> bool {
    exists|i: int| 0 <= i < e.len() && e[i].0 == k
}

impl<'a> PathMatchCache<'a> {
    #[verifier::type_invariant]
    spec fn inv(self) -> bool {
        forall|i: int, j: int| 0 <= i < self.entries@.len() && 0 <= j < self.entries@.len() && i != j
            ==> #[trigger] self.entries@[i].0@ != #[trigger] self.entries@[j].0@
    }

    /// The cached paths with their segments, in insertion order.
    pub closed spec fn entries(&self) -> Seq<(Seq<char>, Seq<Seq<char>>)> {
        cache_view(self.entries@)
    }

    /// Number of lookups that found an entry.
    pub closed spec fn hit_count(&self) -> usize {
        self.hits
    }

    /// Number of lookups that found none.
    pub closed spec fn miss_count(&self) -> usize {
        self.misses
    }

    /// An empty cache.
    pub fn new() -> (r: PathMatchCache<'a>)
        ensures
            r.entries() == Seq::<(Seq<char>, Seq<Seq<char>>)>::empty(),
            r.hit_count() == 0,
            r.miss_count() == 0,
    {
        let r = PathMatchCache { entries: Vec::new(), hits: 0, misses: 0 };
        assert(r.entries() =~= Seq::<(Seq<char>, Seq<Seq<char>>)>::empty());
        r
    }

    fn find(&self, path: &str) -> (r: Option<usize>)
        ensures
            match r {
                Some(i) => i < self.entries@.len() && self.entries()[i as int].0 == path@,
                None => !cache_has(self.entries(), path@),
            },
    {
        let mut i: usize = 0;
        while i < self.entries.len()
            invariant
                i <= self.entries@.len(),
                forall|j: int| 0 <= j < i ==> self.entries()[j].0 != path@,
            decreases self.entries.len() - i,
        {
            if str_eq(cow_str(&self.entries[i].0), path) {
                return Some(i);
            }
            i = i + 1;
        }
        None
    }

    /// The cached segments of `path`, counting a hit when there are some and a miss otherwise.
    pub fn get(&mut self, path: Cow<'a, str>) -> (r: Option<&Vec<Arc<String>>>)
        ensures
            final(self).entries() == old(self).entries(),
            match r {
                Some(v) => cache_has(old(self).entries(), path@)
                    && exists|i: int| 0 <= i < old(self).entries().len() && old(self).entries()[i].0 == path@
                        && old(self).entries()[i].1 == v@.map_values(|a: Arc<String>| a@),
                None => !cache_has(old(self).entries(), path@),
            },
            cache_has(old(self).entries(), path@) ==> final(self).hit_count() == bump(old(self).hit_count())
                && final(self).miss_count() == old(self).miss_count(),
            !cache_has(old(self).entries(), path@) ==> final(self).miss_count() == bump(old(self).miss_count())
                && final(self).hit_count() == old(self).hit_count(),
            keys_unique(old(self).entries()),
            cached_value(old(self).entries(), path@) == match r {
                Some(v) => Some(v@.map_values(|a: Arc<String>| a@)),
                None => None::<Seq<Seq<char>>>,
            },
    {
        proof {
            use_type_invariant(&*self);
            assert forall|a: int, b: int| 0 <= a < self.entries().len() && 0 <= b < self.entries().len() && a != b
                implies #[trigger] self.entries()[a].0 != #[trigger] self.entries()[b].0 by {
                assert(self.entries@[a].0@ != self.entries@[b].0@);
            }
        }
        proof { use_type_invariant(&*self); }
        let ghost e = self.entries();
        match self.find(cow_str(&path)) {
            Some(i) => {
                proof {
                    let j = entry_index(e, path@);
                    assert(e[i as int].0 == path@);
                    if j != i {
                        assert(e[j].0 != e[i as int].0);
                    }
                }
                self.hits = bump_exec(self.hits);
                Some(&self.entries[i].1)
            },
            None => {
                self.misses = bump_exec(self.misses);
                None
            },
        }
    }

    /// Caches `segments` for `path`, replacing what was cached for the same path.
    pub fn insert(&mut self, path: Cow<'a, str>, segments: Vec<Arc<String>>)
        ensures
            final(self).hit_count() == old(self).hit_count(),
            final(self).miss_count() == old(self).miss_count(),
            cache_has(old(self).entries(), path@) ==> exists|i: int| 0 <= i < old(self).entries().len()
                && old(self).entries()[i].0 == path@
                && final(self).entries() == old(self).entries().update(i, (path@, segments@.map_values(|a: Arc<String>| a@))),
            !cache_has(old(self).entries(), path@) ==> final(self).entries() == old(self).entries().push((path@, segments@.map_values(|a: Arc<String>| a@))),
            keys_unique(old(self).entries()),
            keys_unique(final(self).entries()),
            final(self).entries() == cache_put(old(self).entries(), path@, segments@.map_values(|a: Arc<String>| a@)),
    {
        proof {
            use_type_invariant(&*self);
            assert forall|a: int, b: int| 0 <= a < self.entries().len() && 0 <= b < self.entries().len() && a != b
                implies #[trigger] self.entries()[a].0 != #[trigger] self.entries()[b].0 by {
                assert(self.entries@[a].0@ != self.entries@[b].0@);
            }
        }

        proof { use_type_invariant(&*self); }
        let ghost old_v = self.entries();
        let ghost new_pair = (path@, segments@.map_values(|a: Arc<String>| a@));
        let found = self.find(cow_str(&path));
        let mut entries: Vec<(Cow<'a, str>, Vec<Arc<String>>)> = Vec::new();
        std::mem::swap(&mut entries, &mut self.entries);
        match found {
            Some(i) => {
                let ghost old_e = entries@;
                let old_key = match &entries[i].0 {
                    Cow::Borrowed(s) => Cow::Borrowed(*s),
                    Cow::Owned(s) => Cow::Owned(s.clone()),
                };
                entries.set(i, (old_key, segments));
                assert(cache_view(entries@) =~= old_v.update(i as int, new_pair));
                proof {
                    let j = entry_index(old_v, path@);
                    assert(old_v[i as int].0 == path@);
                    if j != i {
                        assert(old_v[j].0 != old_v[i as int].0);
                    }
                }
                assert forall|a: int, b: int| 0 <= a < entries@.len() && 0 <= b < entries@.len() && a != b
                    implies #[trigger] entries@[a].0@ != #[trigger] entries@[b].0@ by {
                    assert(old_e[a].0@ != old_e[b].0@);
                    assert(entries@[a].0@ == old_e[a].0@);
                    assert(entries@[b].0@ == old_e[b].0@);
                };
            },
            None => {
                let ghost old_e = entries@;
                entries.push((path, segments));
                assert(cache_view(entries@) =~= old_v.push(new_pair));
                assert forall|a: int, b: int| 0 <= a < entries@.len() && 0 <= b < entries@.len() && a != b
                    implies #[trigger] entries@[a].0@ != #[trigger] entries@[b].0@ by {
                    if a < old_e.len() && b < old_e.len() {
                        assert(old_e[a].0@ != old_e[b].0@);
                    } else if a < old_e.len() {
                        assert(old_v[a].0 == entries@[a].0@);
                    } else {
                        assert(old_v[b].0 == entries@[b].0@);
                    }
                };
            },
        }
        self.entries = entries;
        proof {
            use_type_invariant(&*self);
            assert forall|a: int, b: int| 0 <= a < self.entries().len() && 0 <= b < self.entries().len() && a != b
                implies #[trigger] self.entries()[a].0 != #[trigger] self.entries()[b].0 by {
                assert(self.entries@[a].0@ != self.entries@[b].0@);
            }
        }
    }

    /// Number of lookups that found an entry.
    pub fn hits(&self) -> (r: usize)
        ensures
            r == self.hit_count(),
    {
        self.hits
    }

    /// Number of lookups that found none.
    pub fn misses(&self) -> (r: usize)
        ensures
            r == self.miss_count(),
    {
        self.misses
    }

    /// Removes every entry and resets the counters.
    pub fn clear(&mut self)
        ensures
            final(self).entries() == Seq::<(Seq<char>, Seq<Seq<char>>)>::empty(),
            final(self).hit_count() == 0,
            final(self).miss_count() == 0,
    {
        self.entries = Vec::new();
        self.hits = 0;
        self.misses = 0;
        assert(self.entries() =~= Seq::<(Seq<char>, Seq<Seq<char>>)>::empty());
    }
}

} // verus!

use vstd::prelude::*;

verus! {

/// Collects the characters of `s` into a vector.
pub fn chars_of(s: &str) -> (v: Vec<char>)
    ensures
        v@ == s@,
{
    let mut v: Vec<char> = Vec::new();
    let n = s.unicode_len();
    let mut i: usize = 0;
    while i < n
        invariant
            n == s@.len(),
            i <= n,
            v@ == s@.subrange(0, i as int),
        decreases n - i,
    {
        let c = s.get_char(i);
        v.push(c);
        i = i + 1;
    }
    v
}

/// Character-wise equality of two string slices.
pub fn str_eq(a: &str, b: &str) -> (r: bool)
    ensures
        r == (a@ == b@),
{
    let va = chars_of(a);
    let vb = chars_of(b);
    if va.len() != vb.len() {
        return false;
    }
    let mut i: usize = 0;
    while i < va.len()
        invariant
            va@ == a@,
            vb@ == b@,
            va.len() == vb.len(),
            i <= va.len(),
            forall|j: int| 0 <= j < i ==> va@[j] == vb@[j],
        decreases va.len() - i,
    {
        if va[i] != vb[i] {
            return false;
        }
        i = i + 1;
    }
    assert(a@ =~= b@);
    true
}

} // verus!

verus! {

/// The pieces of `s` separated by `sep`, as `str::split` yields them
/// (there is always at least one piece, possibly empty).
pub open spec fn split_on(s: Seq<char>, sep: char) -> Seq<Seq<char>>
    decreases s.len(),
{
    if s.len() == 0 {
        seq![Seq::<char>::empty()]
    } else {
        let p = split_on(s.drop_last(), sep);
        if s.last() == sep {
            p.push(Seq::<char>::empty())
        } else {
            p.update(p.len() - 1, p.last().push(s.last()))
        }
    }
}

/// The non-empty pieces of `p`, in order.
pub open spec fn nonempty(p: Seq<Seq<char>>) -> Seq<Seq<char>>
    decreases p.len(),
{
    if p.len() == 0 {
        Seq::<Seq<char>>::empty()
    } else if p.last().len() == 0 {
        nonempty(p.drop_last())
    } else {
        nonempty(p.drop_last()).push(p.last())
    }
}

/// The non-empty segments of a path: `path.split('/').filter(|s| !s.is_empty())`.
pub open spec fn segments(s: Seq<char>) -> Seq<Seq<char>> {
    nonempty(split_on(s, '/'))
}

pub proof fn lemma_split_on_len(s: Seq<char>, sep: char)
    ensures
        split_on(s, sep).len() >= 1,
    decreases s.len(),
{
    if s.len() > 0 {
        lemma_split_on_len(s.drop_last(), sep);
    }
}

/// A segment of a path: non-empty and without `/`.
pub open spec fn is_piece(s: Seq<char>) -> bool {
    s.len() > 0 && forall|i: int| 0 <= i < s.len() ==> s[i] != '/'
}

/// Appending characters other than `sep` extends the last piece.
proof fn lemma_split_extend(base: Seq<char>, part: Seq<char>, sep: char)
    requires
        forall|i: int| 0 <= i < part.len() ==> part[i] != sep,
    ensures
        split_on(base + part, sep) == split_on(base, sep).update(split_on(base, sep).len() - 1,
            split_on(base, sep).last() + part),
    decreases part.len(),
{
    lemma_split_on_len(base, sep);
    let p = split_on(base, sep);
    if part.len() == 0 {
        assert(base + part =~= base);
        assert(p.last() + part =~= p.last());
        assert(p.update(p.len() - 1, p.last()) =~= p);
    } else {
        let q = part.drop_last();
        assert forall|i: int| 0 <= i < q.len() implies q[i] != sep by {
            assert(q[i] == part[i]);
        }
        lemma_split_extend(base, q, sep);
        let x = base + part;
        assert(x.drop_last() =~= base + q);
        assert(x.last() == part.last());
        assert(part.last() == part[part.len() - 1]);
        let pq = split_on(base + q, sep);
        assert(pq.last() == p.last() + q);
        assert((p.last() + q).push(part.last()) =~= p.last() + part);
        assert(pq.update(pq.len() - 1, pq.last().push(part.last())) =~= p.update(p.len() - 1, p.last() + part));
    }
}

/// Appending `/` and a segment to a path appends that segment to its segments.
pub proof fn lemma_segments_push_piece(s: Seq<char>, part: Seq<char>)
    requires
        is_piece(part),
    ensures
        segments(s + seq!['/'] + part) == segments(s).push(part),
{
    let x = s.push('/');
    assert(s + seq!['/'] =~= x);
    assert(x.drop_last() =~= s);
    lemma_split_on_len(s, '/');
    lemma_split_extend(x, part, '/');
    let p = split_on(s, '/');
    let px = split_on(x, '/');
    assert(px == p.push(Seq::<char>::empty()));
    assert(Seq::<char>::empty() + part =~= part);
    let pf = split_on(x + part, '/');
    assert(pf =~= p.push(part));
    assert(p.push(part).drop_last() =~= p);
    assert(p.push(part).last() == part);
}

/// `/` followed by pieces joined with `/` splits back into those pieces.
pub proof fn lemma_segments_of_joined(st: Seq<Seq<char>>)
    requires
        forall|k: int| 0 <= k < st.len() ==> is_piece(#[trigger] st[k]),
    ensures
        segments(seq!['/'] + join_with(st, seq!['/'])) == st,
    decreases st.len(),
{
    if st.len() == 0 {
        lemma_segments_root();
        assert(seq!['/'] + Seq::<char>::empty() =~= seq!['/']);
    } else {
        let init = st.drop_last();
        let x = st.last();
        assert(is_piece(st[st.len() - 1]));
        if st.len() == 1 {
            lemma_segments_root();
            lemma_segments_push_piece(Seq::<char>::empty(), x);
            assert(Seq::<char>::empty() + seq!['/'] + x =~= seq!['/'] + join_with(st, seq!['/']));
            assert(split_on(Seq::<char>::empty(), '/') == seq![Seq::<char>::empty()]);
            let q = seq![Seq::<char>::empty()];
            assert(q.drop_last() =~= Seq::<Seq<char>>::empty());
            assert(q.last().len() == 0);
            assert(nonempty(q) == nonempty(q.drop_last()));
            assert(segments(Seq::<char>::empty()) =~= Seq::<Seq<char>>::empty());
            assert(Seq::<Seq<char>>::empty().push(x) =~= st);
        } else {
            assert forall|k: int| 0 <= k < init.len() implies is_piece(#[trigger] init[k]) by {
                assert(init[k] == st[k]);
            }
            lemma_segments_of_joined(init);
            let a = seq!['/'] + join_with(init, seq!['/']);
            lemma_segments_push_piece(a, x);
            assert(a + seq!['/'] + x =~= seq!['/'] + join_with(st, seq!['/']));
            assert(init.push(x) =~= st);
        }
    }
}

/// A lone `/` has no segments.
pub proof fn lemma_segments_root()
    ensures
        segments(seq!['/']) == Seq::<Seq<char>>::empty(),
{
    let s = seq!['/'];
    assert(s.drop_last() =~= Seq::<char>::empty());
    assert(s.last() == '/');
    assert(split_on(Seq::<char>::empty(), '/') == seq![Seq::<char>::empty()]);
    let p = split_on(s, '/');
    assert(p == seq![Seq::<char>::empty()].push(Seq::<char>::empty()));
    assert(p.drop_last() =~= seq![Seq::<char>::empty()]);
    assert(p.last().len() == 0);
    let q = seq![Seq::<char>::empty()];
    assert(q.drop_last() =~= Seq::<Seq<char>>::empty());
    assert(q.last().len() == 0);
    assert(nonempty(Seq::<Seq<char>>::empty()) == Seq::<Seq<char>>::empty());
    assert(nonempty(q) == nonempty(q.drop_last()));
    assert(nonempty(p) == nonempty(p.drop_last()));
}

proof fn lemma_split_no_sep(s: Seq<char>, sep: char)
    ensures
        forall|k: int, i: int| 0 <= k < split_on(s, sep).len() && 0 <= i < split_on(s, sep)[k].len()
            ==> #[trigger] split_on(s, sep)[k][i] != sep,
    decreases s.len(),
{
    if s.len() > 0 {
        lemma_split_no_sep(s.drop_last(), sep);
        lemma_split_on_len(s.drop_last(), sep);
        let p = split_on(s.drop_last(), sep);
        if s.last() != sep {
            let q = split_on(s, sep);
            assert forall|k: int, i: int| 0 <= k < q.len() && 0 <= i < q[k].len() implies #[trigger] q[k][i] != sep by {
                if k == p.len() - 1 {
                    if i < p.last().len() {
                        assert(q[k][i] == p[k][i]);
                    }
                } else {
                    assert(q[k] == p[k]);
                }
            }
        } else {
            let q = split_on(s, sep);
            assert forall|k: int, i: int| 0 <= k < q.len() && 0 <= i < q[k].len() implies #[trigger] q[k][i] != sep by {
                if k < p.len() {
                    assert(q[k] == p[k]);
                }
            }
        }
    }
}

proof fn lemma_nonempty_pieces(p: Seq<Seq<char>>)
    requires
        forall|k: int, i: int| 0 <= k < p.len() && 0 <= i < p[k].len() ==> #[trigger] p[k][i] != '/',
    ensures
        forall|k: int| 0 <= k < nonempty(p).len() ==> is_piece(#[trigger] nonempty(p)[k]),
    decreases p.len(),
{
    if p.len() > 0 {
        let d = p.drop_last();
        assert forall|k: int, i: int| 0 <= k < d.len() && 0 <= i < d[k].len() implies #[trigger] d[k][i] != '/' by {
            assert(d[k] == p[k]);
        }
        lemma_nonempty_pieces(d);
        if p.last().len() > 0 {
            let n = nonempty(p);
            assert forall|k: int| 0 <= k < n.len() implies is_piece(#[trigger] n[k]) by {
                if k == n.len() - 1 {
                    assert(n[k] == p.last());
                    assert forall|i: int| 0 <= i < n[k].len() implies n[k][i] != '/' by {
                        assert(p[p.len() - 1][i] != '/');
                    }
                } else {
                    assert(n[k] == nonempty(d)[k]);
                }
            }
        } else {
            assert(nonempty(p) == nonempty(d));
        }
    }
}

/// Every segment of a path is non-empty and has no `/`.
pub proof fn lemma_segments_are_pieces(s: Seq<char>)
    ensures
        forall|k: int| 0 <= k < segments(s).len() ==> is_piece(#[trigger] segments(s)[k]),
{
    lemma_split_no_sep(s, '/');
    lemma_nonempty_pieces(split_on(s, '/'));
}

/// One step of the splitting loop: how the pieces of a prefix grow by one character.
proof fn lemma_split_step(s: Seq<char>, sep: char, start: int, i: int)
    requires
        0 <= start <= i < s.len(),
        split_on(s.subrange(0, i), sep).last() == s.subrange(start, i),
    ensures
        s[i] == sep ==> split_on(s.subrange(0, i + 1), sep) == split_on(s.subrange(0, i), sep).push(Seq::<char>::empty()),
        s[i] != sep ==> split_on(s.subrange(0, i + 1), sep).last() == s.subrange(start, i + 1),
        s[i] != sep ==> split_on(s.subrange(0, i + 1), sep).drop_last() == split_on(s.subrange(0, i), sep).drop_last(),
{
    let t = s.subrange(0, i + 1);
    assert(t.drop_last() =~= s.subrange(0, i));
    assert(t.last() == s[i]);
    lemma_split_on_len(s.subrange(0, i), sep);
    let p = split_on(s.subrange(0, i), sep);
    if s[i] != sep {
        assert(s.subrange(start, i).push(s[i]) =~= s.subrange(start, i + 1));
        assert(p.update(p.len() - 1, p.last().push(s[i])).drop_last() =~= p.drop_last());
    }
}

/// Character ranges `[a, b)` of the non-empty `'/'`-separated segments of `s`.
pub fn segment_bounds(s: &str) -> (r: Vec<(usize, usize)>)
    ensures
        r@.len() == segments(s@).len(),
        forall|k: int| #![trigger r@[k]] 0 <= k < r@.len() ==> r@[k].0 <= r@[k].1 && r@[k].1 <= s@.len()
            && s@.subrange(r@[k].0 as int, r@[k].1 as int) == segments(s@)[k],
{
    let v = chars_of(s);
    let n = v.len();
    let mut r: Vec<(usize, usize)> = Vec::new();
    let mut start: usize = 0;
    let mut i: usize = 0;
    let ghost sv = s@;
    assert(sv.subrange(0, 0) =~= Seq::<char>::empty());
    assert(split_on(sv.subrange(0, 0), '/').drop_last() =~= Seq::<Seq<char>>::empty());
    while i < n
        invariant
            v@ == sv,
            sv == s@,
            n == sv.len(),
            start <= i <= n,
            split_on(sv.subrange(0, i as int), '/').len() >= 1,
            split_on(sv.subrange(0, i as int), '/').last() == sv.subrange(start as int, i as int),
            r@.len() == nonempty(split_on(sv.subrange(0, i as int), '/').drop_last()).len(),
            forall|k: int| #![trigger r@[k]] 0 <= k < r@.len() ==> r@[k].0 <= r@[k].1 && r@[k].1 <= start
                && sv.subrange(r@[k].0 as int, r@[k].1 as int)
                    == nonempty(split_on(sv.subrange(0, i as int), '/').drop_last())[k],
        decreases n - i,
    {
        proof {
            lemma_split_step(sv, '/', start as int, i as int);
            lemma_split_on_len(sv.subrange(0, i as int), '/');
            lemma_split_on_len(sv.subrange(0, i + 1), '/');
        }
        let ghost p = split_on(sv.subrange(0, i as int), '/');
        if v[i] == '/' {
            let ghost q = split_on(sv.subrange(0, i + 1), '/');
            assert(q.drop_last() =~= p);
            assert(p =~= p.drop_last().push(p.last()));
            if start < i {
                r.push((start, i));
            }
            start = i + 1;
            assert(sv.subrange(start as int, i + 1) =~= Seq::<char>::empty());
        }
        i = i + 1;
    }
    proof {
        lemma_split_on_len(sv, '/');
        let p = split_on(sv.subrange(0, n as int), '/');
        assert(sv.subrange(0, n as int) =~= sv);
        assert(p =~= p.drop_last().push(p.last()));
        assert(segments(sv) == nonempty(p));
    }
    if start < n {
        r.push((start, n));
    }
    proof {
        let p = split_on(sv, '/');
        assert(sv.subrange(0, n as int) =~= sv);
        if start < n {
            assert(nonempty(p) == nonempty(p.drop_last()).push(p.last()));
        } else {
            assert(nonempty(p) == nonempty(p.drop_last()));
        }
    }
    r
}

} // verus!

verus! {

/// Appends one character to a `String` (`String::push`).
#[verifier::external_body]
pub(crate) fn push_char(s: &mut String, c: char)
    ensures
        final(s)@ == old(s)@.push(c),
{
    s.push(c);
}

/// An owned copy of `s`.
pub fn owned(s: &str) -> (r: String)
    ensures
        r@ == s@,
{
    s.to_owned()
}

/// The characters `a..b` of `s` as a new `String`.
pub fn substring(s: &str, a: usize, b: usize) -> (r: String)
    requires
        a <= b <= s@.len(),
    ensures
        r@ == s@.subrange(a as int, b as int),
{
    s.substring_char(a, b).to_owned()
}

/// The non-empty `'/'`-separated segments of `s`, as owned strings.
pub fn split_segments(s: &str) -> (r: Vec<String>)
    ensures
        r@.len() == segments(s@).len(),
        forall|k: int| 0 <= k < r@.len() ==> #[trigger] r@[k]@ == segments(s@)[k],
{
    let b = segment_bounds(s);
    let mut r: Vec<String> = Vec::new();
    let mut k: usize = 0;
    while k < b.len()
        invariant
            b@.len() == segments(s@).len(),
            forall|j: int| #![trigger b@[j]] 0 <= j < b@.len() ==> b@[j].0 <= b@[j].1 && b@[j].1 <= s@.len()
                && s@.subrange(b@[j].0 as int, b@[j].1 as int) == segments(s@)[j],
            k <= b.len(),
            r@.len() == k,
            forall|j: int| 0 <= j < k ==> #[trigger] r@[j]@ == segments(s@)[j],
        decreases b.len() - k,
    {
        let (x, y) = b[k];
        assert(b@[k as int].0 <= b@[k as int].1);
        r.push(substring(s, x, y));
        k = k + 1;
    }
    r
}

/// The non-empty `'/'`-separated segments of `s`, as slices of `s`.
pub fn split_segment_slices<'a>(s: &'a str) -> (r: Vec<&'a str>)
    ensures
        r@.len() == segments(s@).len(),
        forall|k: int| 0 <= k < r@.len() ==> #[trigger] r@[k]@ == segments(s@)[k],
{
    let b = segment_bounds(s);
    let mut r: Vec<&'a str> = Vec::new();
    let mut k: usize = 0;
    while k < b.len()
        invariant
            b@.len() == segments(s@).len(),
            forall|j: int| #![trigger b@[j]] 0 <= j < b@.len() ==> b@[j].0 <= b@[j].1 && b@[j].1 <= s@.len()
                && s@.subrange(b@[j].0 as int, b@[j].1 as int) == segments(s@)[j],
            k <= b.len(),
            r@.len() == k,
            forall|j: int| 0 <= j < k ==> #[trigger] r@[j]@ == segments(s@)[j],
        decreases b.len() - k,
    {
        let (x, y) = b[k];
        assert(b@[k as int].0 <= b@[k as int].1);
        r.push(s.substring_char(x, y));
        k = k + 1;
    }
    r
}

} // verus!

verus! {

/// The strings of `v`, as character sequences.
pub open spec fn strings_view(v: Seq<String>) -> Seq<Seq<char>> {
    v.map_values(|s: String| s@)
}

/// `p` is a prefix of `s`.
pub open spec fn is_prefix<T>(p: Seq<T>, s: Seq<T>) -> bool {
    p.len() <= s.len() && s.subrange(0, p.len() as int) == p
}

/// `p` is a suffix of `s`.
pub open spec fn is_suffix(p: Seq<char>, s: Seq<char>) -> bool {
    p.len() <= s.len() && s.subrange(s.len() - p.len(), s.len() as int) == p
}

/// `p` occurs in `s` starting at character `i`.
pub open spec fn occurs_at(s: Seq<char>, p: Seq<char>, i: int) -> bool {
    0 <= i && i + p.len() <= s.len() && s.subrange(i, i + p.len()) == p
}

/// `p` occurs somewhere in `s`.
pub open spec fn contains_seq(s: Seq<char>, p: Seq<char>) -> bool {
    exists|i: int| occurs_at(s, p, i)
}

/// Index of the first occurrence of `c` in `s` at or after `i`, or `s.len()`.
pub open spec fn find_from(s: Seq<char>, c: char, i: int) -> int
    decreases s.len() - i,
{
    if i < 0 || i >= s.len() {
        s.len() as int
    } else if s[i] == c {
        i
    } else {
        find_from(s, c, i + 1)
    }
}

pub proof fn lemma_find_from(s: Seq<char>, c: char, i: int)
    requires
        0 <= i <= s.len(),
    ensures
        i <= find_from(s, c, i) <= s.len(),
        find_from(s, c, i) < s.len() ==> s[find_from(s, c, i)] == c,
        forall|j: int| i <= j < find_from(s, c, i) ==> s[j] != c,
    decreases s.len() - i,
{
    if i < s.len() && s[i] != c {
        lemma_find_from(s, c, i + 1);
    }
}

/// Whether `s` starts with `p`.
pub fn starts_with(s: &str, p: &str) -> (r: bool)
    ensures
        r == is_prefix(p@, s@),
{
    let a = chars_of(s);
    let b = chars_of(p);
    if b.len() > a.len() {
        return false;
    }
    let mut i: usize = 0;
    while i < b.len()
        invariant
            a@ == s@,
            b@ == p@,
            b.len() <= a.len(),
            i <= b.len(),
            forall|j: int| 0 <= j < i ==> a@[j] == b@[j],
        decreases b.len() - i,
    {
        if a[i] != b[i] {
            assert(s@.subrange(0, p@.len() as int)[i as int] != p@[i as int]);
            return false;
        }
        i = i + 1;
    }
    assert(s@.subrange(0, p@.len() as int) =~= p@);
    true
}

/// Whether `s` ends with `p`.
pub fn ends_with(s: &str, p: &str) -> (r: bool)
    ensures
        r == is_suffix(p@, s@),
{
    let a = chars_of(s);
    let b = chars_of(p);
    if b.len() > a.len() {
        return false;
    }
    let off = a.len() - b.len();
    let mut i: usize = 0;
    while i < b.len()
        invariant
            a@ == s@,
            b@ == p@,
            b.len() <= a.len(),
            off == a.len() - b.len(),
            i <= b.len(),
            forall|j: int| 0 <= j < i ==> a@[off + j] == b@[j],
        decreases b.len() - i,
    {
        if a[off + i] != b[i] {
            assert(s@.subrange(off as int, s@.len() as int)[i as int] != p@[i as int]);
            return false;
        }
        i = i + 1;
    }
    assert(s@.subrange(off as int, s@.len() as int) =~= p@);
    true
}

/// Whether the character `c` occurs in `s`.
pub fn contains_char(s: &str, c: char) -> (r: bool)
    ensures
        r == s@.contains(c),
{
    let a = chars_of(s);
    let mut i: usize = 0;
    while i < a.len()
        invariant
            a@ == s@,
            i <= a.len(),
            forall|j: int| 0 <= j < i ==> a@[j] != c,
        decreases a.len() - i,
    {
        if a[i] == c {
            return true;
        }
        i = i + 1;
    }
    false
}

/// Whether `p` occurs in the characters `a` at position `i`.
pub fn occurs_at_vec(a: &Vec<char>, p: &Vec<char>, i: usize) -> (r: bool)
    ensures
        r == occurs_at(a@, p@, i as int),
{
    if i > a.len() || p.len() > a.len() - i {
        return false;
    }
    let mut k: usize = 0;
    while k < p.len()
        invariant
            i + p.len() <= a.len(),
            k <= p.len(),
            forall|j: int| 0 <= j < k ==> a@[i + j] == p@[j],
        decreases p.len() - k,
    {
        if a[i + k] != p[k] {
            assert(a@.subrange(i as int, i + p@.len())[k as int] != p@[k as int]);
            return false;
        }
        k = k + 1;
    }
    assert(a@.subrange(i as int, i + p@.len()) =~= p@);
    true
}

/// Character index of the first occurrence of `p` in `a`.
pub fn find_seq_vec(a: &Vec<char>, p: &Vec<char>) -> (r: Option<usize>)
    ensures
        match r {
            Some(i) => occurs_at(a@, p@, i as int) && forall|j: int| 0 <= j < i ==> !occurs_at(a@, p@, j),
            None => !contains_seq(a@, p@),
        },
{
    let mut i: usize = 0;
    loop
        invariant
            i <= a.len(),
            forall|j: int| 0 <= j < i ==> !occurs_at(a@, p@, j),
        decreases a.len() - i,
    {
        if occurs_at_vec(a, p, i) {
            return Some(i);
        }
        if i == a.len() {
            assert forall|j: int| !occurs_at(a@, p@, j) by {
                if 0 <= j && j + p@.len() <= a@.len() {
                    assert(j <= i);
                }
            };
            return None;
        }
        i = i + 1;
    }
}

/// Whether `p` occurs in `s`.
pub fn contains_str(s: &str, p: &str) -> (r: bool)
    ensures
        r == contains_seq(s@, p@),
{
    let a = chars_of(s);
    let b = chars_of(p);
    find_seq_vec(&a, &b).is_some()
}

/// Character index of the first `c` in `s`.
pub fn find_char_index(s: &str, c: char) -> (r: Option<usize>)
    ensures
        match r {
            Some(i) => i < s@.len() && s@[i as int] == c && i == find_from(s@, c, 0),
            None => !s@.contains(c) && find_from(s@, c, 0) == s@.len(),
        },
{
    let a = chars_of(s);
    let mut i: usize = 0;
    proof { lemma_find_from(s@, c, 0); }
    while i < a.len()
        invariant
            a@ == s@,
            i <= a.len(),
            forall|j: int| 0 <= j < i ==> a@[j] != c,
            find_from(s@, c, 0) == find_from(s@, c, i as int),
        decreases a.len() - i,
    {
        if a[i] == c {
            return Some(i);
        }
        i = i + 1;
    }
    None
}

} // verus!

verus! {

/// Character ranges of all pieces of `s` separated by `sep`, as `str::split` yields them.
#[verifier::spinoff_prover]
pub fn piece_bounds(s: &str, sep: char) -> (r: Vec<(usize, usize)>)
    ensures
        r@.len() == split_on(s@, sep).len(),
        forall|k: int| #![trigger r@[k]] 0 <= k < r@.len() ==> r@[k].0 <= r@[k].1 && r@[k].1 <= s@.len()
            && s@.subrange(r@[k].0 as int, r@[k].1 as int) == split_on(s@, sep)[k],
{
    let v = chars_of(s);
    let n = v.len();
    let mut r: Vec<(usize, usize)> = Vec::new();
    let mut start: usize = 0;
    let mut i: usize = 0;
    let ghost sv = s@;
    assert(sv.subrange(0, 0) =~= Seq::<char>::empty());
    assert(split_on(sv.subrange(0, 0), sep).drop_last() =~= Seq::<Seq<char>>::empty());
    while i < n
        invariant
            v@ == sv,
            sv == s@,
            n == sv.len(),
            start <= i <= n,
            split_on(sv.subrange(0, i as int), sep).len() >= 1,
            split_on(sv.subrange(0, i as int), sep).last() == sv.subrange(start as int, i as int),
            r@.len() == split_on(sv.subrange(0, i as int), sep).len() - 1,
            forall|k: int| 0 <= k < r@.len() ==> #[trigger] r@[k].0 <= r@[k].1 && r@[k].1 <= start
                && sv.subrange(r@[k].0 as int, r@[k].1 as int) == split_on(sv.subrange(0, i as int), sep)[k],
        decreases n - i,
    {
        proof {
            lemma_split_step(sv, sep, start as int, i as int);
            lemma_split_on_len(sv.subrange(0, i as int), sep);
            lemma_split_on_len(sv.subrange(0, i + 1), sep);
        }
        let ghost p = split_on(sv.subrange(0, i as int), sep);
        let ghost q = split_on(sv.subrange(0, i + 1), sep);
        if v[i] == sep {
            let ghost old_r = r@;
            let ghost old_start = start;
            r.push((start, i));
            start = i + 1;
            assert(sv.subrange(start as int, i + 1) =~= Seq::<char>::empty());
            assert forall|k: int| 0 <= k < r@.len() implies #[trigger] r@[k].0 <= r@[k].1 && r@[k].1 <= start
                && sv.subrange(r@[k].0 as int, r@[k].1 as int) == q[k] by {
                assert(q == p.push(Seq::<char>::empty()));
                assert(k < p.len());
                assert(q[k] == p[k]);
                if k < old_r.len() {
                    assert(r@[k] == old_r[k]);
                } else {
                    assert(r@[k] == (old_start, i));
                    assert(k == p.len() - 1);
                    assert(p[k] == p.last());
                }
                assert(sv.subrange(r@[k].0 as int, r@[k].1 as int) == q[k]);
            };
        } else {
            assert(q.drop_last().len() == p.drop_last().len());
            assert(q.len() == p.len());
            assert forall|k: int| 0 <= k < r@.len() implies #[trigger] r@[k].0 <= r@[k].1 && r@[k].1 <= start
                && sv.subrange(r@[k].0 as int, r@[k].1 as int) == q[k] by {
                assert(q.drop_last()[k] == p.drop_last()[k]);
                assert(q[k] == q.drop_last()[k]);
                assert(p[k] == p.drop_last()[k]);
                assert(sv.subrange(r@[k].0 as int, r@[k].1 as int) == q[k]);
            };
        }
        i = i + 1;
        assert(q == split_on(sv.subrange(0, i as int), sep));
        assert forall|k: int| 0 <= k < r@.len() implies #[trigger] r@[k].0 <= r@[k].1 && r@[k].1 <= start
            && sv.subrange(r@[k].0 as int, r@[k].1 as int) == split_on(sv.subrange(0, i as int), sep)[k] by {
            assert(sv.subrange(r@[k].0 as int, r@[k].1 as int) == q[k]);
        };
    }
    proof {
        assert(sv.subrange(0, n as int) =~= sv);
    }
    let ghost old_r = r@;
    r.push((start, n));
    proof {
        let p = split_on(sv.subrange(0, n as int), sep);
        assert(p == split_on(sv, sep));
        assert forall|k: int| #![trigger r@[k]] 0 <= k < r@.len() implies r@[k].0 <= r@[k].1 && r@[k].1 <= s@.len()
            && s@.subrange(r@[k].0 as int, r@[k].1 as int) == split_on(s@, sep)[k] by {
            if k < old_r.len() {
                assert(r@[k] == old_r[k]);
                assert(sv.subrange(r@[k].0 as int, r@[k].1 as int) == p[k]);
            } else {
                assert(sv.subrange(r@[k].0 as int, r@[k].1 as int) == p.last());
            }
            assert(s@.subrange(r@[k].0 as int, r@[k].1 as int) == split_on(s@, sep)[k]);
        };
        assert(r@.len() == split_on(s@, sep).len());
    }
    r
}

/// All pieces of `s` separated by `sep`, as owned strings.
pub fn split_pieces(s: &str, sep: char) -> (r: Vec<String>)
    ensures
        r@.len() == split_on(s@, sep).len(),
        forall|k: int| 0 <= k < r@.len() ==> #[trigger] r@[k]@ == split_on(s@, sep)[k],
{
    let b = piece_bounds(s, sep);
    let mut r: Vec<String> = Vec::new();
    let mut k: usize = 0;
    while k < b.len()
        invariant
            b@.len() == split_on(s@, sep).len(),
            forall|j: int| #![trigger b@[j]] 0 <= j < b@.len() ==> b@[j].0 <= b@[j].1 && b@[j].1 <= s@.len()
                && s@.subrange(b@[j].0 as int, b@[j].1 as int) == split_on(s@, sep)[j],
            k <= b.len(),
            r@.len() == k,
            forall|j: int| 0 <= j < k ==> #[trigger] r@[j]@ == split_on(s@, sep)[j],
        decreases b.len() - k,
    {
        let (x, y) = b[k];
        assert(b@[k as int].0 <= b@[k as int].1);
        r.push(substring(s, x, y));
        k = k + 1;
    }
    r
}

/// The pieces `p` joined with `sep` between consecutive pieces.
pub open spec fn join_with(p: Seq<Seq<char>>, sep: Seq<char>) -> Seq<char>
    decreases p.len(),
{
    if p.len() == 0 {
        Seq::<char>::empty()
    } else if p.len() == 1 {
        p[0]
    } else {
        join_with(p.drop_last(), sep) + sep + p.last()
    }
}

/// Splitting on a separator and joining with it gives back the original text.
pub proof fn lemma_join_split(s: Seq<char>, sep: char)
    ensures
        join_with(split_on(s, sep), seq![sep]) == s,
    decreases s.len(),
{
    if s.len() > 0 {
        let t = s.drop_last();
        lemma_join_split(t, sep);
        lemma_split_on_len(t, sep);
        let p = split_on(t, sep);
        if s.last() == sep {
            let q = p.push(Seq::<char>::empty());
            assert(q.drop_last() =~= p);
            assert(s =~= t + seq![sep] + Seq::<char>::empty());
        } else {
            let q = p.update(p.len() - 1, p.last().push(s.last()));
            if p.len() == 1 {
                assert(s =~= p[0].push(s.last()));
            } else {
                assert(q.drop_last() =~= p.drop_last());
                assert(join_with(p, seq![sep]) == join_with(p.drop_last(), seq![sep]) + seq![sep] + p.last());
                assert(t == join_with(p.drop_last(), seq![sep]) + seq![sep] + p.last());
                assert(s =~= t.push(s.last()));
                assert(s =~= join_with(p.drop_last(), seq![sep]) + seq![sep] + p.last().push(s.last()));
            }
        }
    }
}

} // verus!

verus! {

/// `find_from` is characterised by the first matching position.
pub proof fn lemma_find_from_unique(s: Seq<char>, c: char, i: int, j: int)
    requires
        0 <= i <= j <= s.len(),
        forall|k: int| i <= k < j ==> s[k] != c,
        j == s.len() || s[j] == c,
    ensures
        find_from(s, c, i) == j,
    decreases j - i,
{
    if i < j {
        lemma_find_from_unique(s, c, i + 1, j);
    }
}

} // verus!

verus! {

/// Whether `s` starts with the character `c`.
pub fn starts_with_char(s: &str, c: char) -> (r: bool)
    ensures
        r == (s@.len() > 0 && s@[0] == c),
{
    let n = s.unicode_len();
    n > 0 && s.get_char(0) == c
}

/// Whether `s` ends with the character `c`.
pub fn ends_with_char(s: &str, c: char) -> (r: bool)
    ensures
        r == (s@.len() > 0 && s@.last() == c),
{
    let n = s.unicode_len();
    n > 0 && s.get_char(n - 1) == c
}

} // verus!

verus! {

/// Length in bytes of the UTF-8 encoding of `s` (what `str::len` returns).
pub open spec fn byte_len(s: Seq<char>) -> usize {
    vstd::utf8::encode_utf8(s).len() as usize
}

/// Byte length of `s`.
pub fn str_byte_len(s: &str) -> (r: usize)
    ensures
        r == byte_len(s@),
{
    s.len()
}

/// Counter step used by the statistics: add one, wrapping at `usize::MAX`.
pub open spec fn bump(x: usize) -> usize {
    if x == usize::MAX { 0 } else { (x + 1) as usize }
}

/// Adds one to a counter, wrapping at `usize::MAX`.
pub fn bump_exec(x: usize) -> (r: usize)
    ensures
        r == bump(x),
    no_unwind
{
    if x == usize::MAX { 0 } else { x + 1 }
}

} // verus!

verus! {

/// The elements of `s.push(x)` are those of `s` and `x`.
pub proof fn lemma_push_to_set<A>(s: Seq<A>, x: A)
    ensures
        s.push(x).to_set() == s.to_set().insert(x),
{
    assert forall|a: A| s.push(x).to_set().contains(a) <==> s.to_set().insert(x).contains(a) by {
        if s.contains(a) {
            let i = choose|i: int| 0 <= i < s.len() && s[i] == a;
            assert(s.push(x)[i] == a);
        }
        if s.push(x).contains(a) {
            let i = choose|i: int| 0 <= i < s.push(x).len() && s.push(x)[i] == a;
            if i < s.len() {
                assert(s[i] == a);
            }
        }
        if a == x {
            assert(s.push(x)[s.len() as int] == x);
        }
    };
    assert(s.push(x).to_set() =~= s.to_set().insert(x));
}

} // verus!

verus! {

/// The decimal digit for `d` (`0..=9`).
pub open spec fn digit_char(d: nat) -> char {
    seq!['0', '1', '2', '3', '4', '5', '6', '7', '8', '9'][d as int]
}

/// The decimal representation of `n`, as `usize::to_string` writes it.
pub open spec fn decimal(n: nat) -> Seq<char>
    decreases n,
{
    if n < 10 {
        seq![digit_char(n)]
    } else {
        decimal(n / 10).push(digit_char(n % 10))
    }
}

pub proof fn lemma_decimal_len(n: nat)
    ensures
        decimal(n).len() >= 1,
    decreases n,
{
    if n >= 10 {
        lemma_decimal_len(n / 10);
    }
}

fn digit_exec(d: usize) -> (c: char)
    requires
        d < 10,
    ensures
        c == digit_char(d as nat),
{
    let digits: [char; 10] = ['0', '1', '2', '3', '4', '5', '6', '7', '8', '9'];
    assert(digits@ =~= seq!['0', '1', '2', '3', '4', '5', '6', '7', '8', '9']);
    digits[d]
}

fn push_decimal(s: &mut String, n: usize)
    ensures
        final(s)@ == old(s)@ + decimal(n as nat),
    decreases n,
{
    if n < 10 {
        push_char(s, digit_exec(n));
        assert(old(s)@.push(digit_char(n as nat)) =~= old(s)@ + decimal(n as nat));
    } else {
        push_decimal(s, n / 10);
        push_char(s, digit_exec(n % 10));
        assert(old(s)@ + decimal((n / 10) as nat) + seq![digit_char((n % 10) as nat)] =~= old(s)@ + decimal(n as nat));
    }
}

/// The decimal text of `n`.
pub fn decimal_string(n: usize) -> (r: String)
    ensures
        r@ == decimal(n as nat),
{
    let mut s = String::new();
    push_decimal(&mut s, n);
    assert(Seq::<char>::empty() + decimal(n as nat) =~= decimal(n as nat));
    s
}

} // verus!


verus! {

/// Unicode white space, as `char::is_whitespace` tests it.
pub open spec fn is_ws(c: char) -> bool {
    c == '\t' || c == '\n' || c == '\u{0B}' || c == '\u{0C}' || c == '\r' || c == ' '
        || c == '\u{85}' || c == '\u{A0}' || c == '\u{1680}' || ('\u{2000}' <= c && c <= '\u{200A}')
        || c == '\u{2028}' || c == '\u{2029}' || c == '\u{202F}' || c == '\u{205F}' || c == '\u{3000}'
}

/// Whether `c` is white space.
pub fn is_ws_exec(c: char) -> (r: bool)
    ensures
        r == is_ws(c),
{
    c == '\t' || c == '\n' || c == '\u{0B}' || c == '\u{0C}' || c == '\r' || c == ' '
        || c == '\u{85}' || c == '\u{A0}' || c == '\u{1680}' || ('\u{2000}' <= c && c <= '\u{200A}')
        || c == '\u{2028}' || c == '\u{2029}' || c == '\u{202F}' || c == '\u{205F}' || c == '\u{3000}'
}

/// `s` without leading and trailing white space (`str::trim`): the part from the first to
/// the last character that is not white space.
pub open spec fn trimmed(s: Seq<char>) -> Seq<char> {
    if exists|i: int| 0 <= i < s.len() && !is_ws(s[i]) {
        let a = choose|a: int| 0 <= a < s.len() && !is_ws(s[a]) && forall|k: int| 0 <= k < a ==> is_ws(s[k]);
        let b = choose|b: int| 0 <= b < s.len() && !is_ws(s[b]) && forall|k: int| b < k < s.len() ==> is_ws(s[k]);
        s.subrange(a, b + 1)
    } else {
        Seq::<char>::empty()
    }
}

/// `s` with white space trimmed from both ends.
pub fn trim(s: &str) -> (r: String)
    ensures
        r@ == trimmed(s@),
{
    let v = chars_of(s);
    let n = v.len();
    let mut a: usize = 0;
    while a < n && is_ws_exec(v[a])
        invariant
            v@ == s@,
            n == v@.len(),
            a <= n,
            forall|k: int| 0 <= k < a ==> is_ws(s@[k]),
        decreases n - a,
    {
        a = a + 1;
    }
    if a == n {
        proof {
            if exists|i: int| 0 <= i < s@.len() && !is_ws(s@[i]) {
                let i = choose|i: int| 0 <= i < s@.len() && !is_ws(s@[i]);
                assert(is_ws(s@[i]));
            }
        }
        return String::new();
    }
    let mut b: usize = n - 1;
    while is_ws_exec(v[b])
        invariant
            v@ == s@,
            n == v@.len(),
            a < n,
            !is_ws(s@[a as int]),
            a <= b < n,
            forall|k: int| b < k < n ==> is_ws(s@[k]),
        decreases b,
    {
        b = b - 1;
    }
    proof {
        let a2 = choose|x: int| 0 <= x < s@.len() && !is_ws(s@[x]) && forall|k: int| 0 <= k < x ==> is_ws(s@[k]);
        let b2 = choose|x: int| 0 <= x < s@.len() && !is_ws(s@[x]) && forall|k: int| x < k < s@.len() ==> is_ws(s@[k]);
        assert(0 <= a as int && a < s@.len() && !is_ws(s@[a as int]) && forall|k: int| 0 <= k < a ==> is_ws(s@[k]));
        assert(0 <= b as int && b < s@.len() && !is_ws(s@[b as int]) && forall|k: int| b < k < s@.len() ==> is_ws(s@[k]));
        assert(a2 == a) by {
            if a2 < a { assert(is_ws(s@[a2])); }
            if a2 > a { assert(is_ws(s@[a as int])); }
        };
        assert(b2 == b) by {
            if b2 < b { assert(is_ws(s@[b as int])); }
            if b2 > b { assert(is_ws(s@[b2])); }
        };
    }
    substring(s, a, b + 1)
}

} // verus!

verus! {

/// Empties a `String`, keeping its allocation (`String::clear`).
#[verifier::external_body]
pub(crate) fn clear_string(s: &mut String)
    ensures
        final(s)@ == Seq::<char>::empty(),
{
    s.clear();
}

} // verus!

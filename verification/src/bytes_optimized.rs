//! Byte-buffer helpers: views and splitting over byte slices, comparisons, and hex and
//! Base64 conversions.
use std::cmp::Ordering;
use base64::Engine;
use vstd::prelude::*;
use vstd::utf8::{valid_utf8, is_char_boundary};
use vstd::string::StringSliceAdditionalSpecFns;
use crate::text::push_char;

verus! {

/// `p` occurs in `s` at position `i`.
pub open spec fn occurs_bytes(s: Seq<u8>, p: Seq<u8>, i: int) -> bool {
    0 <= i && i + p.len() <= s.len() && s.subrange(i, i + p.len()) == p
}

/// The first position from `i` on where `p` occurs in `s` (the position of the first
/// window equal to `p`).
pub open spec fn first_occurrence(s: Seq<u8>, p: Seq<u8>, i: int) -> Option<int>
    decreases s.len() + 1 - i,
{
    if i < 0 || i + p.len() > s.len() {
        None
    } else if s.subrange(i, i + p.len()) == p {
        Some(i)
    } else {
        first_occurrence(s, p, i + 1)
    }
}

proof fn lemma_first_occurrence(s: Seq<u8>, p: Seq<u8>, i: int)
    requires
        0 <= i,
    ensures
        first_occurrence(s, p, i) matches Some(k) ==> i <= k && occurs_bytes(s, p, k)
            && forall|j: int| i <= j < k ==> !occurs_bytes(s, p, j),
        first_occurrence(s, p, i) is None ==> forall|j: int| i <= j ==> !occurs_bytes(s, p, j),
    decreases s.len() + 1 - i,
{
    if i + p.len() <= s.len() && s.subrange(i, i + p.len()) != p {
        lemma_first_occurrence(s, p, i + 1);
    }
}

/// Whether `p` occurs in `s` at position `i`.
fn occurs_at_bytes(s: &[u8], p: &[u8], i: usize) -> (r: bool)
    requires
        i + p@.len() <= s.len(),
    ensures
        r == (s@.subrange(i as int, i + p@.len()) == p@),
{
    let mut j: usize = 0;
    while j < p.len()
        invariant
            i + p@.len() <= s.len(),
            j <= p@.len(),
            forall|k: int| 0 <= k < j ==> s@[i + k] == p@[k],
        decreases p@.len() - j,
    {
        if s[i + j] != p[j] {
            assert(s@.subrange(i as int, i + p@.len())[j as int] != p@[j as int]);
            return false;
        }
        j = j + 1;
    }
    assert(s@.subrange(i as int, i + p@.len()) =~= p@);
    true
}

/// The position of the first window of `s` equal to `p` (`p` must not be empty).
pub fn find_bytes(s: &[u8], p: &[u8]) -> (r: Option<usize>)
    requires
        p@.len() > 0,
    ensures
        match first_occurrence(s@, p@, 0) {
            Some(k) => r == Some(k as usize),
            None => r is None,
        },
{
    if p.len() > s.len() {
        return None;
    }
    let last = s.len() - p.len();
    let mut i: usize = 0;
    while i <= last
        invariant
            last == s.len() - p@.len(),
            p@.len() <= s.len(),
            p@.len() > 0,
            first_occurrence(s@, p@, 0) == first_occurrence(s@, p@, i as int),
        decreases last + 1 - i,
    {
        if occurs_at_bytes(s, p, i) {
            return Some(i);
        }
        i = i + 1;
    }
    None
}

/// A view of a byte slice.
#[derive(Debug, Clone)]
pub struct BytesView<'a> {
    inner: &'a [u8],
}

impl<'a> View for BytesView<'a> {
    type V = Seq<u8>;

    closed spec fn view(&self) -> Seq<u8> {
        self.inner@
    }
}

impl<'a> BytesView<'a> {
    /// The viewed slice.
    pub closed spec fn slice_ref(&self) -> &'a [u8] {
        self.inner
    }

    /// A view of `slice`.
    pub fn new(slice: &'a [u8]) -> (r: Self)
        ensures
            r@ == slice@,
    {
        BytesView { inner: slice }
    }

    /// A view of what `bytes` holds.
    pub fn from_optimized(bytes: &'a OptimizedBytes) -> (r: Self)
        ensures
            r@ == bytes@,
    {
        BytesView { inner: bytes.as_slice() }
    }

    /// The viewed bytes.
    pub fn as_slice(&self) -> (r: &'a [u8])
        ensures
            r@ == self@,
    {
        self.inner
    }

    /// The number of bytes.
    pub fn len(&self) -> (r: usize)
        ensures
            r == self@.len(),
    {
        self.inner.len()
    }

    /// Whether there are no bytes.
    pub fn is_empty(&self) -> (r: bool)
        ensures
            r == (self@.len() == 0),
    {
        self.inner.len() == 0
    }

    /// The view of the bytes in `range`.
    pub fn slice(&self, range: std::ops::Range<usize>) -> (r: BytesView<'a>)
        requires
            range.start <= range.end <= self@.len(),
        ensures
            r@ == self@.subrange(range.start as int, range.end as int),
    {
        BytesView { inner: &self.inner[range] }
    }

    /// The views of the bytes before and from `mid`.
    pub fn split_at(&self, mid: usize) -> (r: (BytesView<'a>, BytesView<'a>))
        requires
            mid <= self@.len(),
        ensures
            r.0@ == self@.subrange(0, mid as int),
            r.1@ == self@.subrange(mid as int, self@.len() as int),
    {
        let (left, right) = self.inner.split_at(mid);
        (BytesView::new(left), BytesView::new(right))
    }

    /// The position of the first occurrence of `pattern` (which must not be empty).
    pub fn find(&self, pattern: &[u8]) -> (r: Option<usize>)
        requires
            pattern@.len() > 0,
        ensures
            match first_occurrence(self@, pattern@, 0) {
                Some(k) => r == Some(k as usize),
                None => r is None,
            },
    {
        find_bytes(self.inner, pattern)
    }

    /// Whether `pattern` (which must not be empty) occurs.
    pub fn contains(&self, pattern: &[u8]) -> (r: bool)
        requires
            pattern@.len() > 0,
        ensures
            r == exists|i: int| occurs_bytes(self@, pattern@, i),
    {
        proof { lemma_first_occurrence(self@, pattern@, 0); }
        self.find(pattern).is_some()
    }

    /// An iterator over the bytes.
    pub fn iter(&self) -> (r: std::slice::Iter<'a, u8>)
        ensures
            r == vstd::std_specs::slice::spec_slice_iter(self.slice_ref()),
    {
        self.inner.iter()
    }

    /// The bytes as text, if they are UTF-8.
    pub fn to_str(&self) -> (r: Result<&'a str, std::str::Utf8Error>)
        ensures
            r is Ok <==> valid_utf8(self@),
            r matches Ok(s) ==> s.spec_bytes() == self@,
    {
        utf8_text(self.inner)
    }
}

/// `std::str::Utf8Error`, declared for use in signatures.
#[verifier::external_type_specification]
#[verifier::external_body]
pub struct ExUtf8Error(std::str::Utf8Error);

/// Calls `std::str::from_utf8`, which by its documentation succeeds exactly when the bytes
/// are UTF-8 and then gives the text with those bytes. Which error it reports is not
/// stated.
#[verifier::external_body]
fn utf8_text<'a>(bytes: &'a [u8]) -> (r: Result<&'a str, std::str::Utf8Error>)
    ensures
        r is Ok <==> valid_utf8(bytes@),
        r matches Ok(s) ==> s.spec_bytes() == bytes@,
{
    std::str::from_utf8(bytes)
}

/// The next piece a splitter at `pos` yields: `(start, end, next position)` — up to the
/// next delimiter (skipping it), or to the end when none is left.
pub open spec fn next_piece(bytes: Seq<u8>, delim: Seq<u8>, pos: int) -> Option<(int, int, int)> {
    if pos < 0 || pos >= bytes.len() {
        None
    } else {
        match first_occurrence(bytes.subrange(pos, bytes.len() as int), delim, 0) {
            Some(k) => Some((pos, pos + k, pos + k + delim.len())),
            None => Some((pos, bytes.len() as int, bytes.len() as int)),
        }
    }
}

/// All the pieces a splitter at `pos` yields, in order.
pub open spec fn pieces(bytes: Seq<u8>, delim: Seq<u8>, pos: int) -> Seq<Seq<u8>>
    decreases bytes.len() - pos,
{
    match next_piece(bytes, delim, pos) {
        Some((a, b, n)) => if pos < n <= bytes.len() {
            seq![bytes.subrange(a, b)] + pieces(bytes, delim, n)
        } else {
            Seq::empty()
        },
        None => Seq::empty(),
    }
}

/// Splits bytes at each occurrence of a delimiter.
#[derive(Debug, Clone)]
pub struct BytesSplitter<'a> {
    bytes: &'a [u8],
    delimiter: &'a [u8],
    pos: usize,
}

impl<'a> View for BytesSplitter<'a> {
    /// The bytes, the delimiter, and the position of the next piece.
    type V = (Seq<u8>, Seq<u8>, nat);

    closed spec fn view(&self) -> (Seq<u8>, Seq<u8>, nat) {
        (self.bytes@, self.delimiter@, self.pos as nat)
    }
}

proof fn lemma_piece_bounds(bytes: Seq<u8>, delim: Seq<u8>, pos: int)
    requires
        0 <= pos < bytes.len(),
    ensures
        next_piece(bytes, delim, pos) matches Some((a, b, n)) && a == pos && pos <= b <= n <= bytes.len()
            && (delim.len() > 0 ==> pos < n),
{
    let rest = bytes.subrange(pos, bytes.len() as int);
    lemma_first_occurrence(rest, delim, 0);
}

impl<'a> BytesSplitter<'a> {
    /// A splitter over `bytes` at the first piece.
    pub fn new(bytes: &'a [u8], delimiter: &'a [u8]) -> (r: Self)
        ensures
            r@ == (bytes@, delimiter@, 0nat),
    {
        BytesSplitter { bytes, delimiter, pos: 0 }
    }

    /// The next piece, if any: the bytes up to the next delimiter, or the rest. The
    /// delimiter must not be empty while pieces remain.
    pub fn next_view(&mut self) -> (r: Option<BytesView<'a>>)
        requires
            old(self)@.1.len() > 0 || old(self)@.2 >= old(self)@.0.len(),
        ensures
            final(self)@.0 == old(self)@.0,
            final(self)@.1 == old(self)@.1,
            match next_piece(old(self)@.0, old(self)@.1, old(self)@.2 as int) {
                Some((a, b, n)) => r matches Some(v) && v@ == old(self)@.0.subrange(a, b) && final(self)@.2 == n,
                None => r is None && final(self)@ == old(self)@,
            },
    {
        if self.pos >= self.bytes.len() {
            return None;
        }
        proof { lemma_piece_bounds(self.bytes@, self.delimiter@, self.pos as int); }
        let rest = &self.bytes[self.pos..self.bytes.len()];
        match find_bytes(rest, self.delimiter) {
            Some(k) => {
                proof { lemma_first_occurrence(rest@, self.delimiter@, 0); }
                let end = self.pos + k;
                let view = BytesView::new(&self.bytes[self.pos..end]);
                self.pos = end + self.delimiter.len();
                Some(view)
            },
            None => {
                let view = BytesView::new(&self.bytes[self.pos..self.bytes.len()]);
                self.pos = self.bytes.len();
                Some(view)
            },
        }
    }

    /// All remaining pieces, in order. The delimiter must not be empty while pieces remain.
    pub fn collect_all(self) -> (r: Vec<BytesView<'a>>)
        requires
            self@.1.len() > 0 || self@.2 >= self@.0.len(),
        ensures
            r@.len() == pieces(self@.0, self@.1, self@.2 as int).len(),
            forall|k: int| 0 <= k < r@.len() ==> (#[trigger] r@[k])@ == pieces(self@.0, self@.1, self@.2 as int)[k],
    {
        let mut splitter = self;
        let ghost start = self@;
        let mut result: Vec<BytesView<'a>> = Vec::new();
        loop
            invariant
                splitter@.0 == start.0,
                splitter@.1 == start.1,
                start.1.len() > 0 || splitter@.2 >= start.0.len(),
                ({
                    let done = result@.map_values(|v: BytesView<'a>| v@);
                    done + pieces(start.0, start.1, splitter@.2 as int) == pieces(start.0, start.1, start.2 as int)
                }),
            ensures
                next_piece(start.0, start.1, splitter@.2 as int) is None,
                ({
                    let done = result@.map_values(|v: BytesView<'a>| v@);
                    done + pieces(start.0, start.1, splitter@.2 as int) == pieces(start.0, start.1, start.2 as int)
                }),
            decreases start.0.len() + 1 - splitter@.2,
        {
            let ghost before = splitter@;
            let ghost done_before = result@.map_values(|v: BytesView<'a>| v@);
            proof {
                if before.2 < start.0.len() {
                    lemma_piece_bounds(start.0, start.1, before.2 as int);
                }
            }
            match splitter.next_view() {
                Some(v) => {
                    result.push(v);
                    proof {
                        let done = result@.map_values(|w: BytesView<'a>| w@);
                        assert(done =~= done_before.push(v@));
                        let tail = pieces(start.0, start.1, splitter@.2 as int);
                        assert(pieces(start.0, start.1, before.2 as int) == seq![v@] + tail);
                        assert(done + tail =~= done_before + (seq![v@] + tail));
                    }
                },
                None => {
                    proof {
                        assert(pieces(start.0, start.1, before.2 as int) =~= Seq::<Seq<u8>>::empty());
                        let done = result@.map_values(|w: BytesView<'a>| w@);
                        assert(done + Seq::<Seq<u8>>::empty() =~= done);
                    }
                    break;
                },
            }
        }
        proof {
            let done = result@.map_values(|w: BytesView<'a>| w@);
            assert(pieces(start.0, start.1, splitter@.2 as int) =~= Seq::<Seq<u8>>::empty());
            assert(done + Seq::<Seq<u8>>::empty() =~= done);
            assert forall|k: int| 0 <= k < result@.len() implies (#[trigger] result@[k])@ == pieces(start.0, start.1, start.2 as int)[k] by {
                assert(done[k] == result@[k]@);
            }
        }
        result
    }
}

/// The first position from `i` on where `a` and `b` differ, or where the shorter ends.
pub open spec fn mismatch_from(a: Seq<u8>, b: Seq<u8>, i: int) -> int
    decreases a.len() - i,
{
    if i < 0 || i >= a.len() || i >= b.len() || a[i] != b[i] {
        i
    } else {
        mismatch_from(a, b, i + 1)
    }
}

/// The lexicographic order of `a` and `b`: by the first differing byte, a proper prefix
/// first.
pub open spec fn lex_order(a: Seq<u8>, b: Seq<u8>) -> Ordering {
    let m = mismatch_from(a, b, 0);
    if m < a.len() && m < b.len() {
        if a[m] < b[m] { Ordering::Less } else { Ordering::Greater }
    } else if a.len() < b.len() {
        Ordering::Less
    } else if a.len() > b.len() {
        Ordering::Greater
    } else {
        Ordering::Equal
    }
}

proof fn lemma_mismatch(a: Seq<u8>, b: Seq<u8>, i: int)
    requires
        0 <= i <= a.len(),
        i <= b.len(),
    ensures
        i <= mismatch_from(a, b, i) <= a.len(),
        mismatch_from(a, b, i) <= b.len(),
        mismatch_from(a, b, i) < a.len() && mismatch_from(a, b, i) < b.len()
            ==> a[mismatch_from(a, b, i)] != b[mismatch_from(a, b, i)],
    decreases a.len() - i,
{
    if i < a.len() && i < b.len() && a[i] == b[i] {
        lemma_mismatch(a, b, i + 1);
    }
}

/// Agreeing up to `m` and differing at `m` makes `m` the first difference.
proof fn lemma_mismatch_at(a: Seq<u8>, b: Seq<u8>, i: int, m: int)
    requires
        0 <= i <= m,
        m < a.len(),
        m < b.len(),
        forall|k: int| i <= k < m ==> a[k] == b[k],
        a[m] != b[m],
    ensures
        mismatch_from(a, b, i) == m,
    decreases m - i,
{
    if i < m {
        lemma_mismatch_at(a, b, i + 1, m);
    }
}

/// When one slice is a proper prefix of the other, the first difference is where it ends.
proof fn lemma_mismatch_prefix(a: Seq<u8>, b: Seq<u8>, i: int)
    requires
        0 <= i <= a.len(),
        a.len() <= b.len(),
        forall|k: int| i <= k < a.len() ==> a[k] == b[k],
    ensures
        mismatch_from(a, b, i) == a.len(),
    decreases a.len() - i,
{
    if i < a.len() {
        lemma_mismatch_prefix(a, b, i + 1);
    }
}

/// Byte slices are ordered as sequences of unsigned numbers `0..=255`, as std orders
/// `[u8]`: where they first differ at a position both have, the one with the smaller byte
/// comes first; a proper prefix comes before the longer slice; only equal slices compare
/// equal; and swapping the two slices swaps `Less` and `Greater`.
pub proof fn lemma_byte_order(a: Seq<u8>, b: Seq<u8>)
    ensures
        forall|m: int| 0 <= m < a.len() && m < b.len() && a[m] != b[m]
            && (forall|k: int| 0 <= k < m ==> a[k] == b[k])
            ==> ((lex_order(a, b) == Ordering::Less) <==> a[m] < b[m])
                && ((lex_order(a, b) == Ordering::Greater) <==> b[m] < a[m]),
        a.len() < b.len() && (forall|k: int| 0 <= k < a.len() ==> a[k] == b[k]) ==> lex_order(a, b) == Ordering::Less,
        (lex_order(a, b) == Ordering::Equal) <==> a == b,
        (lex_order(a, b) == Ordering::Less) <==> (lex_order(b, a) == Ordering::Greater),
{
    assert forall|m: int| 0 <= m < a.len() && m < b.len() && a[m] != b[m]
        && (forall|k: int| 0 <= k < m ==> a[k] == b[k])
        implies ((lex_order(a, b) == Ordering::Less) <==> a[m] < b[m])
            && ((lex_order(a, b) == Ordering::Greater) <==> b[m] < a[m]) by {
        lemma_mismatch_at(a, b, 0, m);
    }
    if a.len() < b.len() && (forall|k: int| 0 <= k < a.len() ==> a[k] == b[k]) {
        lemma_mismatch_prefix(a, b, 0);
    }
    lemma_mismatch(a, b, 0);
    lemma_mismatch(b, a, 0);
    lemma_mismatch_sym(a, b, 0);
    let m = mismatch_from(a, b, 0);
    if m >= a.len() || m >= b.len() {
        lemma_mismatch_agree(a, b, 0);
        if a.len() == b.len() {
            assert(a =~= b);
        }
    }
}

/// Up to the first difference the slices agree.
proof fn lemma_mismatch_agree(a: Seq<u8>, b: Seq<u8>, i: int)
    requires
        0 <= i <= a.len(),
        i <= b.len(),
    ensures
        forall|k: int| i <= k < mismatch_from(a, b, i) ==> a[k] == b[k],
    decreases a.len() - i,
{
    if i < a.len() && i < b.len() && a[i] == b[i] {
        lemma_mismatch_agree(a, b, i + 1);
    }
}

/// The first difference does not depend on the order of the slices.
proof fn lemma_mismatch_sym(a: Seq<u8>, b: Seq<u8>, i: int)
    ensures
        mismatch_from(a, b, i) == mismatch_from(b, a, i),
    decreases a.len() - i,
{
    if !(i < 0 || i >= a.len() || i >= b.len() || a[i] != b[i]) {
        lemma_mismatch_sym(a, b, i + 1);
    }
}

/// The first position where `left` and `right` differ, or where the shorter ends.
fn mismatch(left: &[u8], right: &[u8]) -> (r: usize)
    ensures
        r == mismatch_from(left@, right@, 0),
{
    let mut i: usize = 0;
    while i < left.len() && i < right.len()
        invariant
            i <= left@.len(),
            i <= right@.len(),
            mismatch_from(left@, right@, 0) == mismatch_from(left@, right@, i as int),
        decreases left@.len() - i,
    {
        if left[i] != right[i] {
            return i;
        }
        i = i + 1;
    }
    i
}

/// Comparisons of byte slices.
pub struct BytesComparator;

impl BytesComparator {
    /// Compares `left` and `right` lexicographically.
    pub fn compare(left: &[u8], right: &[u8]) -> (r: Ordering)
        ensures
            r == lex_order(left@, right@),
    {
        let m = mismatch(left, right);
        proof { lemma_mismatch(left@, right@, 0); }
        if m < left.len() && m < right.len() {
            if left[m] < right[m] { Ordering::Less } else { Ordering::Greater }
        } else if left.len() < right.len() {
            Ordering::Less
        } else if left.len() > right.len() {
            Ordering::Greater
        } else {
            Ordering::Equal
        }
    }

    /// Whether the slices hold the same bytes.
    pub fn equals(left: &[u8], right: &[u8]) -> (r: bool)
        ensures
            r == (left@ == right@),
    {
        if left.len() != right.len() {
            return false;
        }
        let mut i: usize = 0;
        while i < left.len()
            invariant
                left@.len() == right@.len(),
                i <= left@.len(),
                forall|k: int| 0 <= k < i ==> left@[k] == right@[k],
            decreases left@.len() - i,
        {
            if left[i] != right[i] {
                return false;
            }
            i = i + 1;
        }
        assert(left@ =~= right@);
        true
    }

    /// Whether `bytes` starts with `pattern`.
    pub fn starts_with(bytes: &[u8], pattern: &[u8]) -> (r: bool)
        ensures
            r == (pattern@.len() <= bytes@.len() && bytes@.subrange(0, pattern@.len() as int) == pattern@),
    {
        if pattern.len() > bytes.len() {
            return false;
        }
        occurs_at_bytes(bytes, pattern, 0)
    }

    /// Whether `bytes` ends with `pattern`.
    pub fn ends_with(bytes: &[u8], pattern: &[u8]) -> (r: bool)
        ensures
            r == (pattern@.len() <= bytes@.len()
                && bytes@.subrange(bytes@.len() - pattern@.len(), bytes@.len() as int) == pattern@),
    {
        if pattern.len() > bytes.len() {
            return false;
        }
        occurs_at_bytes(bytes, pattern, bytes.len() - pattern.len())
    }
}

/// The lowercase hex digit of `n` (below 16).
pub open spec fn hex_digit(n: u8) -> char {
    if n < 10 { (48 + n) as char } else { (87 + n) as char }
}

/// Each byte as two lowercase hex digits, as `{:02x}` writes it.
pub open spec fn hex_text(bytes: Seq<u8>) -> Seq<char>
    decreases bytes.len(),
{
    if bytes.len() == 0 {
        Seq::empty()
    } else {
        hex_text(bytes.drop_last()) + seq![hex_digit((bytes.last() / 16) as u8), hex_digit((bytes.last() % 16) as u8)]
    }
}

/// The value of a hex digit: `0-9`, `a-f` or `A-F`.
pub open spec fn hex_value(c: char) -> Option<int> {
    if '0' <= c <= '9' {
        Some(c as int - 48)
    } else if 'a' <= c <= 'f' {
        Some(c as int - 87)
    } else if 'A' <= c <= 'F' {
        Some(c as int - 55)
    } else {
        None
    }
}

/// The number the hex digits `d` spell (meaningful when they all are hex digits).
pub open spec fn hex_number(d: Seq<char>) -> int
    decreases d.len(),
{
    if d.len() == 0 {
        0
    } else {
        hex_number(d.drop_last()) * 16 + match hex_value(d.last()) { Some(v) => v, None => 0 }
    }
}

/// What `u8::from_str_radix(s, 16)` reads, by its documentation: an optional `+` followed by
/// one or more hex digits, whose value must fit in a byte.
pub open spec fn radix16_byte(s: Seq<char>) -> Option<u8> {
    let d = if s.len() > 0 && s[0] == '+' { s.drop_first() } else { s };
    if d.len() > 0 && (forall|k: int| 0 <= k < d.len() ==> (#[trigger] hex_value(d[k])) is Some)
        && hex_number(d) <= 255 {
        Some(hex_number(d) as u8)
    } else {
        None
    }
}

/// The text of the error `u8::from_str_radix(s, 16)` reports.
pub uninterp spec fn radix16_error_text(s: Seq<char>) -> Seq<char>;

/// Calls `u8::from_str_radix(s, 16)`. Trusted: it reads a byte exactly as its documentation
/// says (`radix16_byte`), and on failure gives the error's text, `radix16_error_text`; that
/// text is std's and is left unsaid.
#[verifier::external_body]
fn parse_hex_byte(s: &str) -> (r: Result<u8, String>)
    ensures
        match radix16_byte(s@) {
            Some(b) => r == Ok::<u8, String>(b),
            None => r matches Err(m) && m@ == radix16_error_text(s@),
        },
{
    u8::from_str_radix(s, 16).map_err(|e| e.to_string())
}

/// The text of the two bytes at `i` of `bytes`.
pub open spec fn pair_text(bytes: Seq<u8>, i: int) -> Seq<char> {
    vstd::utf8::decode_utf8(bytes.subrange(i, i + 2))
}

/// Decoding the hex text `bytes[i..]` pair by pair: the bytes, or the error of the first
/// pair that is not a byte.
pub open spec fn hex_decode(bytes: Seq<u8>, i: int) -> Result<Seq<u8>, Seq<char>>
    decreases bytes.len() - i,
{
    if i < 0 || i + 2 > bytes.len() {
        Ok(Seq::empty())
    } else {
        match radix16_byte(pair_text(bytes, i)) {
            Some(b) => match hex_decode(bytes, i + 2) {
                Ok(rest) => Ok(seq![b] + rest),
                Err(e) => Err(e),
            },
            None => Err(radix16_error_text(pair_text(bytes, i))),
        }
    }
}

/// The character of the standard Base64 alphabet for the six-bit value `v`: `A`-`Z`,
/// `a`-`z`, `0`-`9`, `+`, `/`.
pub open spec fn base64_char(v: int) -> char {
    if v < 26 {
        (65 + v) as char
    } else if v < 52 {
        (97 + v - 26) as char
    } else if v < 62 {
        (48 + v - 52) as char
    } else if v == 62 {
        '+'
    } else {
        '/'
    }
}

/// Base64 with the standard alphabet and `=` padding: each group of three bytes, read as a
/// 24-bit number, gives four characters of six bits each, most significant first; a last
/// group of one or two bytes gives two or three characters and `=` up to four.
pub open spec fn base64_encoding(bytes: Seq<u8>) -> Seq<char>
    decreases bytes.len(),
{
    if bytes.len() == 0 {
        Seq::empty()
    } else {
        let b1: int = if bytes.len() > 1 { bytes[1] as int } else { 0 };
        let b2: int = if bytes.len() > 2 { bytes[2] as int } else { 0 };
        let n = bytes[0] as int * 65536 + b1 * 256 + b2;
        let c2 = if bytes.len() > 1 { base64_char((n / 64) % 64) } else { '=' };
        let c3 = if bytes.len() > 2 { base64_char(n % 64) } else { '=' };
        seq![base64_char(n / 262144), base64_char((n / 4096) % 64), c2, c3] + if bytes.len() > 3 {
            base64_encoding(bytes.subrange(3, bytes.len() as int))
        } else {
            Seq::empty()
        }
    }
}

/// What decoding a text as Base64 (standard alphabet, padded) gives: the bytes, or the
/// error's text.
pub uninterp spec fn base64_decoding(text: Seq<char>) -> Result<Seq<u8>, Seq<char>>;

/// Encodes with the `base64` crate's `BASE64_STANDARD` engine (standard alphabet, padded).
/// Trusted: the text is `base64_encoding` of the bytes.
#[verifier::external_body]
fn base64_encode(bytes: &[u8]) -> (r: String)
    ensures
        r@ == base64_encoding(bytes@),
{
    base64::prelude::BASE64_STANDARD.encode(bytes)
}

/// Decodes with the `base64` crate's `BASE64_STANDARD` engine. Trusted: the outcome is
/// `base64_decoding` of the text (the error as its display text); which texts decode is
/// the crate's.
#[verifier::external_body]
fn base64_decode(text: &str) -> (r: Result<Vec<u8>, String>)
    ensures
        match base64_decoding(text@) {
            Ok(b) => r matches Ok(v) && v@ == b,
            Err(m) => r matches Err(e) && e@ == m,
        },
{
    base64::prelude::BASE64_STANDARD.decode(text).map_err(|e| e.to_string())
}

/// Conversions between bytes and text.
pub struct BytesConverter;

impl BytesConverter {
    /// The bytes as lowercase hex, two digits each.
    pub fn to_hex(bytes: &[u8]) -> (r: String)
        ensures
            r@ == hex_text(bytes@),
    {
        let mut r = String::new();
        let mut i: usize = 0;
        while i < bytes.len()
            invariant
                i <= bytes@.len(),
                r@ == hex_text(bytes@.subrange(0, i as int)),
            decreases bytes@.len() - i,
        {
            let b = bytes[i];
            let hi = b / 16;
            let lo = b % 16;
            let ch = if hi < 10 { (48 + hi) as char } else { (87 + hi) as char };
            let cl = if lo < 10 { (48 + lo) as char } else { (87 + lo) as char };
            push_char(&mut r, ch);
            push_char(&mut r, cl);
            proof {
                let sub = bytes@.subrange(0, i + 1);
                assert(sub.drop_last() =~= bytes@.subrange(0, i as int));
                assert(sub.last() == b);
                assert(r@ =~= hex_text(sub));
            }
            i = i + 1;
        }
        assert(bytes@.subrange(0, bytes@.len() as int) =~= bytes@);
        r
    }

    /// Reads hex text pair by pair. The text must have an even length in bytes (else the
    /// error says so); each pair is read as `u8::from_str_radix(pair, 16)` reads it, and the
    /// first pair that is not a byte gives the error.
    pub fn from_hex(hex: &str) -> (r: Result<Vec<u8>, String>)
        requires
            hex.spec_bytes().len() % 2 == 0 ==> forall|i: int| 0 <= i <= hex.spec_bytes().len() && i % 2 == 0
                ==> #[trigger] is_char_boundary(hex.spec_bytes(), i),
        ensures
            hex.spec_bytes().len() % 2 != 0 ==> (r matches Err(m) && m@ == "Hex string must have even length"@),
            hex.spec_bytes().len() % 2 == 0 ==> match hex_decode(hex.spec_bytes(), 0) {
                Ok(b) => r matches Ok(v) && v@ == b,
                Err(e) => r matches Err(m) && m@ == e,
            },
    {
        let n = hex.as_bytes().len();
        if n % 2 != 0 {
            return Err(String::from_str("Hex string must have even length"));
        }
        let ghost bytes = hex.spec_bytes();
        proof {
            vstd::utf8::encode_utf8_valid_utf8(hex@);
        }
        let mut out: Vec<u8> = Vec::new();
        let mut i: usize = 0;
        while i < n
            invariant
                bytes == hex.spec_bytes(),
                n == bytes.len(),
                n % 2 == 0,
                i % 2 == 0,
                i <= n,
                valid_utf8(bytes),
                forall|j: int| 0 <= j <= bytes.len() && j % 2 == 0 ==> #[trigger] is_char_boundary(bytes, j),
                match hex_decode(bytes, i as int) {
                    Ok(rest) => hex_decode(bytes, 0) == Ok::<Seq<u8>, Seq<char>>(out@ + rest),
                    Err(e) => hex_decode(bytes, 0) == Err::<Seq<u8>, Seq<char>>(e),
                },
            decreases n - i,
        {
            assert(is_char_boundary(bytes, i as int));
            assert(is_char_boundary(bytes, i + 2));
            let (_, rest) = hex.split_at(i);
            proof {
                let tail = bytes.subrange(i as int, n as int);
                vstd::utf8::valid_utf8_split(bytes, i as int);
                assert(rest.spec_bytes() =~= tail);
                if i + 2 < n {
                    vstd::utf8::is_char_boundary_iff_not_is_continuation_byte(bytes, i + 2);
                    vstd::utf8::is_char_boundary_iff_not_is_continuation_byte(tail, 2);
                    assert(tail[2] == bytes[i + 2]);
                } else {
                    vstd::utf8::is_char_boundary_start_end_of_seq(tail);
                }
            }
            let (pair, _) = rest.split_at(2);
            proof {
                assert(pair.spec_bytes() =~= bytes.subrange(i as int, i + 2));
                vstd::utf8::encode_utf8_decode_utf8(pair@);
                assert(pair@ == pair_text(bytes, i as int));
            }
            match parse_hex_byte(pair) {
                Ok(b) => {
                    let ghost before = out@;
                    out.push(b);
                    proof {
                        match hex_decode(bytes, i + 2) {
                            Ok(rest2) => {
                                assert(out@ + rest2 =~= before + (seq![b] + rest2));
                            },
                            Err(e) => {},
                        }
                    }
                },
                Err(m) => {
                    return Err(m);
                },
            }
            i = i + 2;
        }
        assert(out@ + Seq::<u8>::empty() =~= out@);
        Ok(out)
    }

    /// The bytes in standard, padded Base64.
    pub fn to_base64(bytes: &[u8]) -> (r: String)
        ensures
            r@ == base64_encoding(bytes@),
    {
        base64_encode(bytes)
    }

    /// Decodes standard, padded Base64.
    pub fn from_base64(base64: &str) -> (r: Result<Vec<u8>, String>)
        ensures
            match base64_decoding(base64@) {
                Ok(b) => r matches Ok(v) && v@ == b,
                Err(m) => r matches Err(e) && e@ == m,
            },
    {
        base64_decode(base64)
    }
}

/// `bytes::Bytes`, declared for use in signatures and fields.
#[verifier::external_type_specification]
#[verifier::external_body]
pub struct ExBytes(bytes::Bytes);

/// `bytes::BytesMut`, declared for use in signatures and fields.
#[verifier::external_type_specification]
#[verifier::external_body]
pub struct ExBytesMut(bytes::BytesMut);

/// The bytes a `Bytes` holds.
pub uninterp spec fn bytes_content(b: bytes::Bytes) -> Seq<u8>;

/// The bytes a `BytesMut` holds (its length, not its capacity).
pub uninterp spec fn bytes_mut_content(b: bytes::BytesMut) -> Seq<u8>;

/// `Bytes::clone`: another handle to the same bytes.
pub assume_specification [<bytes::Bytes as Clone>::clone](b: &bytes::Bytes) -> (r: bytes::Bytes)
    ensures
        bytes_content(r) == bytes_content(*b),
;

/// `Bytes::copy_from_slice`: a `Bytes` holding a copy of `data`.
#[verifier::external_body]
fn bytes_copy(data: &[u8]) -> (r: bytes::Bytes)
    ensures
        bytes_content(r) == data@,
{
    bytes::Bytes::copy_from_slice(data)
}

/// `Bytes::from(Vec<u8>)`: a `Bytes` holding the vector's bytes.
#[verifier::external_body]
fn bytes_from_vec(v: Vec<u8>) -> (r: bytes::Bytes)
    ensures
        bytes_content(r) == v@,
{
    bytes::Bytes::from(v)
}

/// `Bytes::from_static`: a `Bytes` over the static bytes.
#[verifier::external_body]
fn bytes_from_static(data: &'static [u8]) -> (r: bytes::Bytes)
    ensures
        bytes_content(r) == data@,
{
    bytes::Bytes::from_static(data)
}

/// `Bytes::as_ref`: the held bytes as a slice.
#[verifier::external_body]
fn bytes_as_slice(b: &bytes::Bytes) -> (r: &[u8])
    ensures
        r@ == bytes_content(*b),
{
    b.as_ref()
}

/// `Bytes::slice(start..end)`: a `Bytes` holding that part; the crate panics unless
/// `start <= end <= len`, which is required.
#[verifier::external_body]
fn bytes_subrange(b: &bytes::Bytes, start: usize, end: usize) -> (r: bytes::Bytes)
    requires
        start <= end <= bytes_content(*b).len(),
    ensures
        bytes_content(r) == bytes_content(*b).subrange(start as int, end as int),
{
    b.slice(start..end)
}

/// `BytesMut::new`: an empty buffer.
#[verifier::external_body]
fn bytes_mut_new() -> (r: bytes::BytesMut)
    ensures
        bytes_mut_content(r) == Seq::<u8>::empty(),
{
    bytes::BytesMut::new()
}

/// `BytesMut::with_capacity`: an empty buffer with room for `capacity` bytes (the room is
/// the allocator's and is not stated).
#[verifier::external_body]
fn bytes_mut_with_capacity(capacity: usize) -> (r: bytes::BytesMut)
    ensures
        bytes_mut_content(r) == Seq::<u8>::empty(),
{
    bytes::BytesMut::with_capacity(capacity)
}

/// `BytesMut::extend_from_slice`: appends `data`. The crate panics when the length would
/// overflow, and the allocation fails beyond `isize::MAX` bytes; both are excluded.
#[verifier::external_body]
fn bytes_mut_extend(b: &mut bytes::BytesMut, data: &[u8])
    requires
        bytes_mut_content(*old(b)).len() + data@.len() <= isize::MAX,
    ensures
        bytes_mut_content(*final(b)) == bytes_mut_content(*old(b)) + data@,
{
    b.extend_from_slice(data)
}

/// `BufMut::put_u8` on a `BytesMut`: appends one byte (with the same limit as
/// `bytes_mut_extend`).
#[verifier::external_body]
fn bytes_mut_put_u8(b: &mut bytes::BytesMut, v: u8)
    requires
        bytes_mut_content(*old(b)).len() + 1 <= isize::MAX,
    ensures
        bytes_mut_content(*final(b)) == bytes_mut_content(*old(b)).push(v),
{
    bytes::BufMut::put_u8(b, v)
}

/// `BytesMut::capacity`: how many bytes fit without reallocating, so at least the number
/// held; how many more reflects the allocation and is left unsaid.
#[verifier::external_body]
fn bytes_mut_capacity(b: &bytes::BytesMut) -> (r: usize)
    ensures
        r >= bytes_mut_content(*b).len(),
{
    b.capacity()
}

/// `BytesMut::freeze`: the held bytes as a `Bytes`.
#[verifier::external_body]
fn bytes_mut_freeze(b: bytes::BytesMut) -> (r: bytes::Bytes)
    ensures
        bytes_content(r) == bytes_mut_content(b),
{
    b.freeze()
}

/// `BytesMut::clear`: drops the held bytes (keeping the room).
#[verifier::external_body]
fn bytes_mut_clear(b: &mut bytes::BytesMut)
    ensures
        bytes_mut_content(*final(b)) == Seq::<u8>::empty(),
{
    b.clear()
}

/// `BytesMut::reserve`: makes room for `additional` more bytes; the content is unchanged.
/// The crate panics when the length plus `additional` overflows, and the allocation fails
/// beyond `isize::MAX` bytes; both are excluded.
#[verifier::external_body]
fn bytes_mut_reserve(b: &mut bytes::BytesMut, additional: usize)
    requires
        bytes_mut_content(*old(b)).len() + additional <= isize::MAX,
    ensures
        bytes_mut_content(*final(b)) == bytes_mut_content(*old(b)),
{
    b.reserve(additional)
}

/// `BytesMut::as_ref`: the held bytes as a slice.
#[verifier::external_body]
fn bytes_mut_as_slice(b: &bytes::BytesMut) -> (r: &[u8])
    ensures
        r@ == bytes_mut_content(*b),
{
    b.as_ref()
}

/// `s` with every occurrence of `from` at or after `start` replaced by `to`, scanning left
/// to right (replaced text is not scanned again).
pub open spec fn replaced(s: Seq<u8>, from: Seq<u8>, to: Seq<u8>, start: int) -> Seq<u8>
    decreases s.len() - start,
{
    if start < 0 || start >= s.len() || from.len() == 0 {
        if 0 <= start < s.len() { s.subrange(start, s.len() as int) } else { Seq::empty() }
    } else {
        match first_occurrence(s.subrange(start, s.len() as int), from, 0) {
            Some(k) => if 0 <= k && start + k + from.len() <= s.len() {
                s.subrange(start, start + k) + to + replaced(s, from, to, start + k + from.len())
            } else {
                Seq::empty()
            },
            None => s.subrange(start, s.len() as int),
        }
    }
}

/// An immutable byte buffer that shares its storage when sliced.
#[derive(Debug, Clone)]
pub struct OptimizedBytes {
    inner: bytes::Bytes,
}

impl View for OptimizedBytes {
    type V = Seq<u8>;

    closed spec fn view(&self) -> Seq<u8> {
        bytes_content(self.inner)
    }
}

impl OptimizedBytes {
    /// A copy of `slice`.
    pub fn from_slice(slice: &[u8]) -> (r: Self)
        ensures
            r@ == slice@,
    {
        OptimizedBytes { inner: bytes_copy(slice) }
    }

    /// The bytes of `vec`.
    pub fn from_vec(vec: Vec<u8>) -> (r: Self)
        ensures
            r@ == vec@,
    {
        OptimizedBytes { inner: bytes_from_vec(vec) }
    }

    /// The static bytes, without copying.
    pub fn from_static(slice: &'static [u8]) -> (r: Self)
        ensures
            r@ == slice@,
    {
        OptimizedBytes { inner: bytes_from_static(slice) }
    }

    /// The bytes as a slice.
    pub fn as_slice(&self) -> (r: &[u8])
        ensures
            r@ == self@,
    {
        bytes_as_slice(&self.inner)
    }

    /// The number of bytes.
    pub fn len(&self) -> (r: usize)
        ensures
            r == self@.len(),
    {
        self.as_slice().len()
    }

    /// Whether there are no bytes.
    pub fn is_empty(&self) -> (r: bool)
        ensures
            r == (self@.len() == 0),
    {
        self.as_slice().len() == 0
    }

    /// The bytes before and from `mid`, sharing this buffer's storage.
    pub fn split_at(&self, mid: usize) -> (r: (OptimizedBytes, OptimizedBytes))
        requires
            mid <= self@.len(),
        ensures
            r.0@ == self@.subrange(0, mid as int),
            r.1@ == self@.subrange(mid as int, self@.len() as int),
    {
        let n = self.len();
        let left = bytes_subrange(&self.inner, 0, mid);
        let right = bytes_subrange(&self.inner, mid, n);
        (OptimizedBytes { inner: left }, OptimizedBytes { inner: right })
    }

    /// The bytes in `range`, sharing this buffer's storage.
    pub fn slice(&self, range: std::ops::Range<usize>) -> (r: OptimizedBytes)
        requires
            range.start <= range.end <= self@.len(),
        ensures
            r@ == self@.subrange(range.start as int, range.end as int),
    {
        OptimizedBytes { inner: bytes_subrange(&self.inner, range.start, range.end) }
    }

    /// The underlying `Bytes`.
    pub fn into_bytes(self) -> (r: bytes::Bytes)
        ensures
            bytes_content(r) == self@,
    {
        self.inner
    }

    /// A vector copy of the bytes.
    pub fn into_vec(self) -> (r: Vec<u8>)
        ensures
            r@ == self@,
    {
        vstd::slice::slice_to_vec(self.as_slice())
    }

    /// Whether `pattern` (which must not be empty) occurs.
    pub fn contains(&self, pattern: &[u8]) -> (r: bool)
        requires
            pattern@.len() > 0,
        ensures
            r == exists|i: int| occurs_bytes(self@, pattern@, i),
    {
        proof { lemma_first_occurrence(self@, pattern@, 0); }
        find_bytes(self.as_slice(), pattern).is_some()
    }

    /// The position of the first occurrence of `pattern` (which must not be empty).
    pub fn find(&self, pattern: &[u8]) -> (r: Option<usize>)
        requires
            pattern@.len() > 0,
        ensures
            match first_occurrence(self@, pattern@, 0) {
                Some(k) => r == Some(k as usize),
                None => r is None,
            },
    {
        find_bytes(self.as_slice(), pattern)
    }

    /// The bytes with each occurrence of `from` replaced by `to`, left to right. `from`
    /// must not be empty unless the buffer is; the result must fit an allocation.
    pub fn replace(&self, from: &[u8], to: &[u8]) -> (r: OptimizedBytes)
        requires
            from@.len() > 0 || self@.len() == 0,
            replaced(self@, from@, to@, 0).len() <= isize::MAX,
        ensures
            r@ == replaced(self@, from@, to@, 0),
    {
        let data = self.as_slice();
        let n = data.len();
        let mut result = bytes_mut_with_capacity(n);
        let mut start: usize = 0;
        while start < n
            invariant
                data@ == self@,
                n == data@.len(),
                from@.len() > 0 || n == 0,
                start <= n,
                bytes_mut_content(result) + replaced(data@, from@, to@, start as int) == replaced(data@, from@, to@, 0),
                replaced(data@, from@, to@, 0).len() <= isize::MAX,
            decreases n - start,
        {
            let rest = &data[start..n];
            proof { lemma_first_occurrence(rest@, from@, 0); }
            match find_bytes(rest, from) {
                Some(pos) => {
                    let actual = start + pos;
                    let ghost before = bytes_mut_content(result);
                    let ghost tail = replaced(data@, from@, to@, actual + from@.len());
                    assert(replaced(data@, from@, to@, start as int)
                        == data@.subrange(start as int, actual as int) + to@ + tail);
                    assert(before + data@.subrange(start as int, actual as int) + to@ + tail
                        =~= before + replaced(data@, from@, to@, start as int));
                    bytes_mut_extend(&mut result, &data[start..actual]);
                    bytes_mut_extend(&mut result, to);
                    start = actual + from.len();
                    proof {
                        if start >= n {
                            assert(tail =~= Seq::<u8>::empty());
                        }
                    }
                },
                None => {
                    let ghost before = bytes_mut_content(result);
                    assert(replaced(data@, from@, to@, start as int) == data@.subrange(start as int, n as int));
                    bytes_mut_extend(&mut result, rest);
                    start = n;
                    assert(replaced(data@, from@, to@, n as int) =~= Seq::<u8>::empty());
                    assert(bytes_mut_content(result) + Seq::<u8>::empty() =~= bytes_mut_content(result));
                },
            }
        }
        proof {
            assert(replaced(data@, from@, to@, start as int) =~= Seq::<u8>::empty());
            assert(bytes_mut_content(result) + Seq::<u8>::empty() =~= bytes_mut_content(result));
        }
        OptimizedBytes { inner: bytes_mut_freeze(result) }
    }

    /// The bytes as text, if they are UTF-8.
    pub fn to_str(&self) -> (r: Result<&str, std::str::Utf8Error>)
        ensures
            r is Ok <==> valid_utf8(self@),
            r matches Ok(s) ==> s.spec_bytes() == self@,
    {
        utf8_text(self.as_slice())
    }
}

/// Reusable byte buffers: at most `max_size` empty buffers kept for reuse, new ones made
/// with room for `chunk_size` bytes.
#[derive(Debug)]
pub struct BytesPool {
    pool: Vec<bytes::BytesMut>,
    max_size: usize,
    chunk_size: usize,
}

impl BytesPool {
    /// The pool's invariant: every kept buffer is empty, and at most `max_size` are kept.
    pub closed spec fn wf(&self) -> bool {
        &&& self.pool@.len() <= self.max_size
        &&& forall|i: int| 0 <= i < self.pool@.len() ==> bytes_mut_content(#[trigger] self.pool@[i]) == Seq::<u8>::empty()
    }

    /// The number of buffers kept.
    pub closed spec fn kept(&self) -> nat {
        self.pool@.len()
    }

    /// The most buffers kept.
    pub closed spec fn limit(&self) -> usize {
        self.max_size
    }

    /// A pool that keeps at most `max_size` buffers and makes new ones with room for
    /// `chunk_size` bytes.
    pub fn new(chunk_size: usize, max_size: usize) -> (r: Self)
        ensures
            r.wf(),
            r.kept() == 0,
            r.limit() == max_size,
    {
        BytesPool { pool: Vec::new(), max_size, chunk_size }
    }

    /// An empty buffer: a kept one if there is one, else a new one.
    pub fn get(&mut self) -> (r: bytes::BytesMut)
        requires
            old(self).wf(),
        ensures
            final(self).wf(),
            final(self).limit() == old(self).limit(),
            bytes_mut_content(r) == Seq::<u8>::empty(),
            final(self).kept() == if old(self).kept() > 0 { old(self).kept() - 1 } else { 0 },
    {
        match self.pool.pop() {
            Some(buf) => buf,
            None => bytes_mut_with_capacity(self.chunk_size),
        }
    }

    /// Gives a buffer back: it is cleared and kept if fewer than `max_size` are kept,
    /// dropped otherwise.
    pub fn put(&mut self, buf: bytes::BytesMut)
        requires
            old(self).wf(),
        ensures
            final(self).wf(),
            final(self).limit() == old(self).limit(),
            final(self).kept() == if old(self).kept() < old(self).limit() { old(self).kept() + 1 } else { old(self).kept() },
    {
        let mut buf = buf;
        if self.pool.len() < self.max_size {
            bytes_mut_clear(&mut buf);
            self.pool.push(buf);
        }
    }

    /// An empty buffer with room for `capacity` bytes: the one `get` gives if it has that
    /// room, else a new one.
    pub fn get_with_capacity(&mut self, capacity: usize) -> (r: bytes::BytesMut)
        requires
            old(self).wf(),
        ensures
            final(self).wf(),
            final(self).limit() == old(self).limit(),
            bytes_mut_content(r) == Seq::<u8>::empty(),
            final(self).kept() == if old(self).kept() > 0 { old(self).kept() - 1 } else { 0 },
    {
        let buf = self.get();
        if bytes_mut_capacity(&buf) < capacity {
            bytes_mut_with_capacity(capacity)
        } else {
            buf
        }
    }

    /// Drops every kept buffer.
    pub fn clear(&mut self)
        requires
            old(self).wf(),
        ensures
            final(self).wf(),
            final(self).limit() == old(self).limit(),
            final(self).kept() == 0,
    {
        self.pool.clear();
    }

    /// The number of buffers kept.
    pub fn len(&self) -> (r: usize)
        ensures
            r == self.kept(),
    {
        self.pool.len()
    }

    /// Whether no buffer is kept.
    pub fn is_empty(&self) -> (r: bool)
        ensures
            r == (self.kept() == 0),
    {
        self.pool.len() == 0
    }
}

impl Default for BytesPool {
    fn default() -> (r: Self)
        ensures
            r.wf(),
            r.kept() == 0,
            r.limit() == 16,
    {
        Self::new(4096, 16)
    }
}

/// The big-endian bytes of a `u16`.
pub open spec fn be_bytes_u16(v: u16) -> Seq<u8> {
    seq![(v / 256) as u8, (v % 256) as u8]
}

/// The little-endian bytes of a `u16`.
pub open spec fn le_bytes_u16(v: u16) -> Seq<u8> {
    seq![(v % 256) as u8, (v / 256) as u8]
}

/// The big-endian bytes of a `u32`.
pub open spec fn be_bytes_u32(v: u32) -> Seq<u8> {
    seq![(v / 16777216) as u8, ((v / 65536) % 256) as u8, ((v / 256) % 256) as u8, (v % 256) as u8]
}

/// The little-endian bytes of a `u32`.
pub open spec fn le_bytes_u32(v: u32) -> Seq<u8> {
    seq![(v % 256) as u8, ((v / 256) % 256) as u8, ((v / 65536) % 256) as u8, (v / 16777216) as u8]
}

/// Builds a byte buffer piece by piece.
#[derive(Debug)]
pub struct BytesBuilder {
    buf: bytes::BytesMut,
}

impl View for BytesBuilder {
    type V = Seq<u8>;

    closed spec fn view(&self) -> Seq<u8> {
        bytes_mut_content(self.buf)
    }
}

impl BytesBuilder {
    /// An empty builder.
    pub fn new() -> (r: Self)
        ensures
            r@ == Seq::<u8>::empty(),
    {
        BytesBuilder { buf: bytes_mut_new() }
    }

    /// An empty builder with room for `capacity` bytes.
    pub fn with_capacity(capacity: usize) -> (r: Self)
        ensures
            r@ == Seq::<u8>::empty(),
    {
        BytesBuilder { buf: bytes_mut_with_capacity(capacity) }
    }

    /// Appends `bytes`.
    pub fn extend(&mut self, bytes: &[u8])
        requires
            old(self)@.len() + bytes@.len() <= isize::MAX,
        ensures
            final(self)@ == old(self)@ + bytes@,
    {
        bytes_mut_extend(&mut self.buf, bytes);
    }

    /// Appends what `other` holds.
    pub fn extend_from_builder(&mut self, other: &BytesBuilder)
        requires
            old(self)@.len() + other@.len() <= isize::MAX,
        ensures
            final(self)@ == old(self)@ + other@,
    {
        bytes_mut_extend(&mut self.buf, other.as_slice());
    }

    /// Appends what `other` holds.
    pub fn extend_from_optimized(&mut self, other: &OptimizedBytes)
        requires
            old(self)@.len() + other@.len() <= isize::MAX,
        ensures
            final(self)@ == old(self)@ + other@,
    {
        bytes_mut_extend(&mut self.buf, other.as_slice());
    }

    /// Appends one byte.
    pub fn write_u8(&mut self, val: u8)
        requires
            old(self)@.len() + 1 <= isize::MAX,
        ensures
            final(self)@ == old(self)@.push(val),
    {
        bytes_mut_put_u8(&mut self.buf, val);
    }

    /// Appends the two bytes of `val`, most significant first.
    pub fn write_u16_be(&mut self, val: u16)
        requires
            old(self)@.len() + 2 <= isize::MAX,
        ensures
            final(self)@ == old(self)@ + be_bytes_u16(val),
    {
        let mut b: Vec<u8> = Vec::new();
        b.push((val / 256) as u8);
        b.push((val % 256) as u8);
        assert(b@ =~= be_bytes_u16(val));
        bytes_mut_extend(&mut self.buf, b.as_slice());
    }

    /// Appends the two bytes of `val`, least significant first.
    pub fn write_u16_le(&mut self, val: u16)
        requires
            old(self)@.len() + 2 <= isize::MAX,
        ensures
            final(self)@ == old(self)@ + le_bytes_u16(val),
    {
        let mut b: Vec<u8> = Vec::new();
        b.push((val % 256) as u8);
        b.push((val / 256) as u8);
        assert(b@ =~= le_bytes_u16(val));
        bytes_mut_extend(&mut self.buf, b.as_slice());
    }

    /// Appends the four bytes of `val`, most significant first.
    pub fn write_u32_be(&mut self, val: u32)
        requires
            old(self)@.len() + 4 <= isize::MAX,
        ensures
            final(self)@ == old(self)@ + be_bytes_u32(val),
    {
        let mut b: Vec<u8> = Vec::new();
        b.push((val / 16777216) as u8);
        b.push(((val / 65536) % 256) as u8);
        b.push(((val / 256) % 256) as u8);
        b.push((val % 256) as u8);
        assert(b@ =~= be_bytes_u32(val));
        bytes_mut_extend(&mut self.buf, b.as_slice());
    }

    /// Appends the four bytes of `val`, least significant first.
    pub fn write_u32_le(&mut self, val: u32)
        requires
            old(self)@.len() + 4 <= isize::MAX,
        ensures
            final(self)@ == old(self)@ + le_bytes_u32(val),
    {
        let mut b: Vec<u8> = Vec::new();
        b.push((val % 256) as u8);
        b.push(((val / 256) % 256) as u8);
        b.push(((val / 65536) % 256) as u8);
        b.push((val / 16777216) as u8);
        assert(b@ =~= le_bytes_u32(val));
        bytes_mut_extend(&mut self.buf, b.as_slice());
    }

    /// Appends the UTF-8 bytes of `s`.
    pub fn write_str(&mut self, s: &str)
        requires
            old(self)@.len() + s.spec_bytes().len() <= isize::MAX,
        ensures
            final(self)@ == old(self)@ + s.spec_bytes(),
    {
        bytes_mut_extend(&mut self.buf, s.as_bytes());
    }

    /// The number of bytes held.
    pub fn len(&self) -> (r: usize)
        ensures
            r == self@.len(),
    {
        self.as_slice().len()
    }

    /// Whether no byte is held.
    pub fn is_empty(&self) -> (r: bool)
        ensures
            r == (self@.len() == 0),
    {
        self.as_slice().len() == 0
    }

    /// How many bytes fit without reallocating: at least the number held (how many more is
    /// the allocator's).
    pub fn capacity(&self) -> (r: usize)
        ensures
            r >= self@.len(),
    {
        bytes_mut_capacity(&self.buf)
    }

    /// The bytes held.
    pub fn as_slice(&self) -> (r: &[u8])
        ensures
            r@ == self@,
    {
        bytes_mut_as_slice(&self.buf)
    }

    /// The finished bytes.
    pub fn build(self) -> (r: OptimizedBytes)
        ensures
            r@ == self@,
    {
        OptimizedBytes { inner: bytes_mut_freeze(self.buf) }
    }

    /// Drops the bytes held.
    pub fn clear(&mut self)
        ensures
            final(self)@ == Seq::<u8>::empty(),
    {
        bytes_mut_clear(&mut self.buf);
    }

    /// Makes room for `additional` more bytes.
    pub fn reserve(&mut self, additional: usize)
        requires
            old(self)@.len() + additional <= isize::MAX,
        ensures
            final(self)@ == old(self)@,
    {
        bytes_mut_reserve(&mut self.buf, additional);
    }
}

impl Default for BytesBuilder {
    fn default() -> (r: Self)
        ensures
            r@ == Seq::<u8>::empty(),
    {
        Self::new()
    }
}

} // verus!

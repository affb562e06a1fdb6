//! String comparison and path splitting helpers (the portable versions; no vector
//! instructions are used).
use vstd::prelude::*;
use vstd::string::StringSliceAdditionalSpecFns;
use crate::text::{byte_len, chars_of, find_char_index, find_from, is_prefix, segments, segment_bounds,
    split_segment_slices, starts_with, str_eq};

verus! {

/// Comparisons of strings.
pub struct SimdComparator;

/// The low eight bits of the code point of `c`.
pub open spec fn low_byte(c: char) -> u8 {
    (c as u32 % 256) as u8
}

fn low_byte_exec(c: char) -> (r: u8)
    ensures
        r == low_byte(c),
{
    let v = c as u32;
    (v % 256) as u8
}

/// Number of leading items `a` and `b` share.
pub open spec fn is_common_prefix_len<T>(a: Seq<T>, b: Seq<T>, n: int) -> bool {
    &&& 0 <= n <= a.len() && n <= b.len()
    &&& forall|i: int| 0 <= i < n ==> a[i] == b[i]
    &&& (n == a.len() || n == b.len() || a[n] != b[n])
}

impl SimdComparator {
    /// Whether `a` and `b` are the same text.
    pub fn equals(a: &str, b: &str) -> (r: bool)
        ensures
            r == (a@ == b@),
    {
        str_eq(a, b)
    }

    /// Whether `text` starts with `prefix`.
    pub fn starts_with(text: &str, prefix: &str) -> (r: bool)
        ensures
            r == is_prefix(prefix@, text@),
    {
        starts_with(text, prefix)
    }

    /// Number of leading characters `a` and `b` have in common.
    pub fn longest_common_prefix(a: &str, b: &str) -> (r: usize)
        ensures
            is_common_prefix_len(a@, b@, r as int),
    {
        let va = chars_of(a);
        let vb = chars_of(b);
        let mut i: usize = 0;
        while i < va.len() && i < vb.len() && va[i] == vb[i]
            invariant
                va@ == a@,
                vb@ == b@,
                i <= va@.len(),
                i <= vb@.len(),
                forall|k: int| 0 <= k < i ==> a@[k] == b@[k],
            decreases va.len() - i,
        {
            i = i + 1;
        }
        i
    }

    /// Byte offset of the first `ch` in `text`, as `str::find` gives it.
    pub fn find_char(text: &str, ch: char) -> (r: Option<usize>)
        ensures
            match r {
                Some(off) => find_from(text@, ch, 0) < text@.len()
                    && off == byte_len(text@.subrange(0, find_from(text@, ch, 0))),
                None => !text@.contains(ch),
            },
    {
        match find_char_index(text, ch) {
            Some(i) => {
                let before = text.substring_char(0, i);
                Some(before.len())
            },
            None => None,
        }
    }

    /// Whether the UTF-8 bytes of `a` and `b` are the same, compared byte by byte; that is
    /// when the texts are the same.
    pub fn equals_simd(a: &str, b: &str) -> (r: bool)
        ensures
            r == (a.spec_bytes() == b.spec_bytes()),
            r == (a@ == b@),
    {
        let ab = a.as_bytes();
        let bb = b.as_bytes();
        proof {
            vstd::utf8::encode_utf8_decode_utf8(a@);
            vstd::utf8::encode_utf8_decode_utf8(b@);
        }
        if ab.len() != bb.len() {
            return false;
        }
        let mut i: usize = 0;
        while i < ab.len()
            invariant
                ab@ == a.spec_bytes(),
                bb@ == b.spec_bytes(),
                ab@.len() == bb@.len(),
                i <= ab@.len(),
                forall|k: int| 0 <= k < i ==> ab@[k] == bb@[k],
            decreases ab@.len() - i,
        {
            if ab[i] != bb[i] {
                return false;
            }
            i = i + 1;
        }
        assert(ab@ =~= bb@);
        true
    }

    /// Whether the UTF-8 bytes of `text` begin with those of `prefix`, compared byte by byte.
    pub fn starts_with_simd(text: &str, prefix: &str) -> (r: bool)
        ensures
            r == is_prefix(prefix.spec_bytes(), text.spec_bytes()),
    {
        let tb = text.as_bytes();
        let pb = prefix.as_bytes();
        if pb.len() > tb.len() {
            return false;
        }
        let mut i: usize = 0;
        while i < pb.len()
            invariant
                tb@ == text.spec_bytes(),
                pb@ == prefix.spec_bytes(),
                pb@.len() <= tb@.len(),
                i <= pb@.len(),
                forall|k: int| 0 <= k < i ==> pb@[k] == tb@[k],
            decreases pb@.len() - i,
        {
            if pb[i] != tb[i] {
                return false;
            }
            i = i + 1;
        }
        assert(tb@.subrange(0, pb@.len() as int) =~= pb@);
        true
    }

    /// Number of leading UTF-8 bytes `a` and `b` have in common (counted in bytes, not
    /// characters).
    pub fn longest_common_prefix_simd(a: &str, b: &str) -> (r: usize)
        ensures
            is_common_prefix_len(a.spec_bytes(), b.spec_bytes(), r as int),
    {
        let ab = a.as_bytes();
        let bb = b.as_bytes();
        let mut i: usize = 0;
        while i < ab.len() && i < bb.len() && ab[i] == bb[i]
            invariant
                ab@ == a.spec_bytes(),
                bb@ == b.spec_bytes(),
                i <= ab@.len(),
                i <= bb@.len(),
                forall|k: int| 0 <= k < i ==> ab@[k] == bb@[k],
            decreases ab@.len() - i,
        {
            i = i + 1;
        }
        i
    }

    /// Byte offset of the first byte of `text` equal to `ch` cut to its low eight bits.
    pub fn find_char_simd(text: &str, ch: char) -> (r: Option<usize>)
        ensures
            match r {
                Some(i) => i < text.spec_bytes().len() && text.spec_bytes()[i as int] == low_byte(ch)
                    && forall|k: int| 0 <= k < i ==> text.spec_bytes()[k] != low_byte(ch),
                None => forall|k: int| 0 <= k < text.spec_bytes().len() ==> text.spec_bytes()[k] != low_byte(ch),
            },
    {
        let target = low_byte_exec(ch);
        let bytes = text.as_bytes();
        let mut i: usize = 0;
        while i < bytes.len()
            invariant
                bytes@ == text.spec_bytes(),
                target == low_byte(ch),
                i <= bytes@.len(),
                forall|k: int| 0 <= k < i ==> bytes@[k] != target,
            decreases bytes@.len() - i,
        {
            if bytes[i] == target {
                return Some(i);
            }
            i = i + 1;
        }
        None
    }

    /// Whether AVX2 instructions are used: never, in this build.
    pub fn is_avx2_supported() -> (r: bool)
        ensures
            !r,
    {
        false
    }
}

/// Path splitting.
pub struct SimdPathSplitter;

impl SimdPathSplitter {
    /// The non-empty `/`-separated segments of `path`, borrowed from it.
    pub fn split_simd(path: &str) -> (r: Vec<&str>)
        ensures
            r@.len() == segments(path@).len(),
            forall|k: int| #![trigger r@[k]] 0 <= k < r@.len() ==> r@[k]@ == segments(path@)[k],
    {
        split_segment_slices(path)
    }

    /// Number of non-empty `/`-separated segments of `path`.
    pub fn count_segments_simd(path: &str) -> (r: usize)
        ensures
            r == segments(path@).len(),
    {
        segment_bounds(path).len()
    }
}

} // verus!

//! Unicode whitespace at the level of UTF-8 bytes, and the scans over byte
//! ranges that trimming and searching need.
use vstd::prelude::*;
use vstd::utf8::{is_char_boundary, valid_utf8};
use crate::text::{lemma_after_char_is_boundary, lemma_lead_is_boundary};

verus! {

broadcast use vstd::seq::group_seq_axioms;

/// The length of the UTF-8 encoding of a whitespace character (Unicode
/// `White_Space`, as `char::is_whitespace` tests) that starts at `i` and
/// lies within `..end`; 0 where none does. The characters are U+0009 to
/// U+000D, U+0020, U+0085, U+00A0, U+1680, U+2000 to U+200A, U+2028, U+2029,
/// U+202F, U+205F and U+3000.
pub open spec fn ws_len_at(b: Seq<u8>, i: int, end: int) -> int {
    if i < 0 || i >= end || end > b.len() {
        0
    } else if (9 <= b[i] <= 13) || b[i] == 32 {
        1
    } else if i + 1 < end && b[i] == 0xC2 && (b[i + 1] == 0x85 || b[i + 1] == 0xA0) {
        2
    } else if i + 2 < end && ((b[i] == 0xE1 && b[i + 1] == 0x9A && b[i + 2] == 0x80) || (b[i]
        == 0xE2 && b[i + 1] == 0x80 && ((0x80 <= b[i + 2] <= 0x8A) || b[i + 2] == 0xA8 || b[i
        + 2] == 0xA9 || b[i + 2] == 0xAF)) || (b[i] == 0xE2 && b[i + 1] == 0x81 && b[i + 2]
        == 0x9F) || (b[i] == 0xE3 && b[i + 1] == 0x80 && b[i + 2] == 0x80)) {
        3
    } else {
        0
    }
}

/// Where the whitespace that starts at `i` ends, within `..end` (`trim_start`).
pub open spec fn skip_ws(b: Seq<u8>, i: int, end: int) -> int
    decreases end - i,
{
    if i < 0 || i >= end || ws_len_at(b, i, end) == 0 {
        i
    } else {
        skip_ws(b, i + ws_len_at(b, i, end), end)
    }
}

/// Where `start..end` ends once whitespace characters at its end are dropped
/// (`trim_end`).
pub open spec fn trim_ws_end(b: Seq<u8>, start: int, end: int) -> int
    decreases end - start,
{
    if end <= start {
        end
    } else if ws_len_at(b, end - 1, end) == 1 {
        trim_ws_end(b, start, end - 1)
    } else if end - 2 >= start && ws_len_at(b, end - 2, end) == 2 {
        trim_ws_end(b, start, end - 2)
    } else if end - 3 >= start && ws_len_at(b, end - 3, end) == 3 {
        trim_ws_end(b, start, end - 3)
    } else {
        end
    }
}

/// Where the run of spaces that starts at `i` ends, within `..end`.
pub open spec fn spaces_end(b: Seq<u8>, i: int, end: int) -> int
    decreases end - i,
{
    if i < 0 || i >= end || b[i] != 32 {
        i
    } else {
        spaces_end(b, i + 1, end)
    }
}

/// The first offset in `i..end` that holds `c`.
pub open spec fn first_byte(b: Seq<u8>, i: int, end: int, c: u8) -> Option<int>
    decreases end - i,
{
    if i < 0 || i >= end {
        None
    } else if b[i] == c {
        Some(i)
    } else {
        first_byte(b, i + 1, end, c)
    }
}

/// The first offset `q` in `p..` at which the bytes `ns..ne` occur within
/// `..end` (`str::find` of a substring).
pub open spec fn first_occurrence(b: Seq<u8>, p: int, end: int, ns: int, ne: int) -> Option<int>
    decreases end + 1 - p,
{
    if p < 0 || ne < ns || p + (ne - ns) > end {
        None
    } else if b.subrange(p, p + (ne - ns)) == b.subrange(ns, ne) {
        Some(p)
    } else {
        first_occurrence(b, p + 1, end, ns, ne)
    }
}

pub proof fn lemma_scans(b: Seq<u8>, i: int, end: int)
    requires
        0 <= i <= end <= b.len(),
    ensures
        i <= skip_ws(b, i, end) <= end,
        i <= spaces_end(b, i, end) <= end,
    decreases end - i,
{
    if i < end {
        lemma_scans(b, i + 1, end);
        if ws_len_at(b, i, end) > 0 {
            lemma_scans(b, i + ws_len_at(b, i, end), end);
        }
    }
}

pub proof fn lemma_first_byte(b: Seq<u8>, i: int, end: int, c: u8)
    requires
        0 <= i <= end <= b.len(),
    ensures
        first_byte(b, i, end, c) is Some ==> i <= first_byte(b, i, end, c).unwrap() < end
            && b[first_byte(b, i, end, c).unwrap()] == c,
        forall|m: int|
            i <= m < end && b[m] == c ==> first_byte(b, i, end, c) is Some && first_byte(
                b,
                i,
                end,
                c,
            ).unwrap() <= m,
        first_byte(b, i, end, c) is None ==> forall|m: int| i <= m < end ==> b[m] != c,
    decreases end - i,
{
    if i < end {
        lemma_first_byte(b, i + 1, end, c);
    }
}

pub proof fn lemma_trim_ws_end(b: Seq<u8>, start: int, end: int)
    requires
        0 <= start <= end <= b.len(),
    ensures
        start <= trim_ws_end(b, start, end) <= end,
    decreases end - start,
{
    if end > start {
        if ws_len_at(b, end - 1, end) == 1 {
            lemma_trim_ws_end(b, start, end - 1);
        } else if end - 2 >= start && ws_len_at(b, end - 2, end) == 2 {
            lemma_trim_ws_end(b, start, end - 2);
        } else if end - 3 >= start && ws_len_at(b, end - 3, end) == 3 {
            lemma_trim_ws_end(b, start, end - 3);
        }
    }
}

pub proof fn lemma_first_occurrence(b: Seq<u8>, p: int, end: int, ns: int, ne: int)
    requires
        0 <= p <= ns <= ne <= end <= b.len(),
    ensures
        (first_occurrence(b, p, end, ns, ne) matches Some(q) && p <= q <= ns),
    decreases ns - p,
{
    if p < ns && b.subrange(p, p + (ne - ns)) != b.subrange(ns, ne) {
        lemma_first_occurrence(b, p + 1, end, ns, ne);
    }
}

/// Skipping whitespace from a character boundary stops on a boundary.
pub proof fn lemma_skip_ws_boundary(b: Seq<u8>, i: int, end: int)
    requires
        valid_utf8(b),
        0 <= i <= end <= b.len(),
        is_char_boundary(b, i),
    ensures
        is_char_boundary(b, skip_ws(b, i, end)),
    decreases end - i,
{
    if i < end && ws_len_at(b, i, end) > 0 {
        let w = ws_len_at(b, i, end);
        lemma_after_char_is_boundary(b, i, w);
        lemma_skip_ws_boundary(b, i + w, end);
    }
}

/// Trimming whitespace from the end of a range whose ends are boundaries
/// stops on a boundary.
pub proof fn lemma_trim_ws_end_boundary(b: Seq<u8>, start: int, end: int)
    requires
        valid_utf8(b),
        0 <= start <= end <= b.len(),
        is_char_boundary(b, start),
        is_char_boundary(b, end),
    ensures
        is_char_boundary(b, trim_ws_end(b, start, end)),
    decreases end - start,
{
    if end > start {
        if ws_len_at(b, end - 1, end) == 1 {
            lemma_lead_is_boundary(b, end - 1);
            lemma_trim_ws_end_boundary(b, start, end - 1);
        } else if end - 2 >= start && ws_len_at(b, end - 2, end) == 2 {
            lemma_lead_is_boundary(b, end - 2);
            lemma_trim_ws_end_boundary(b, start, end - 2);
        } else if end - 3 >= start && ws_len_at(b, end - 3, end) == 3 {
            lemma_lead_is_boundary(b, end - 3);
            lemma_trim_ws_end_boundary(b, start, end - 3);
        }
    }
}

/// A run of spaces ends where it starts or just after a space.
pub proof fn lemma_spaces_end_after_space(b: Seq<u8>, i: int, end: int)
    requires
        0 <= i <= end <= b.len(),
    ensures
        spaces_end(b, i, end) == i || b[spaces_end(b, i, end) - 1] == 32,
    decreases end - i,
{
    if i < end && b[i] == 32 {
        lemma_spaces_end_after_space(b, i + 1, end);
    }
}

/// The first occurrence found is a copy of the bytes `ns..ne`.
pub proof fn lemma_first_occurrence_matches(b: Seq<u8>, p: int, end: int, ns: int, ne: int)
    requires
        0 <= p <= ns <= ne <= end <= b.len(),
    ensures
        first_occurrence(b, p, end, ns, ne) matches Some(q) && b.subrange(q, q + (ne - ns)) == b.subrange(ns, ne),
    decreases ns - p,
{
    if p < ns && b.subrange(p, p + (ne - ns)) != b.subrange(ns, ne) {
        lemma_first_occurrence_matches(b, p + 1, end, ns, ne);
    }
}

/// The length of the whitespace character at `i` within `..end`, or 0.
pub fn ws_len(b: &[u8], i: usize, end: usize) -> (n: usize)
    requires
        end <= b@.len(),
    ensures
        n == ws_len_at(b@, i as int, end as int),
{
    if i >= end {
        return 0;
    }
    let c = b[i];
    if (9u8 <= c && c <= 13u8) || c == 32u8 {
        1
    } else if end - i > 1 && c == 0xC2u8 && (b[i + 1] == 0x85u8 || b[i + 1] == 0xA0u8) {
        2
    } else if end - i > 2 && ((c == 0xE1u8 && b[i + 1] == 0x9Au8 && b[i + 2] == 0x80u8) || (c
        == 0xE2u8 && b[i + 1] == 0x80u8 && ((0x80u8 <= b[i + 2] && b[i + 2] <= 0x8Au8) || b[i
        + 2] == 0xA8u8 || b[i + 2] == 0xA9u8 || b[i + 2] == 0xAFu8)) || (c == 0xE2u8 && b[i
        + 1] == 0x81u8 && b[i + 2] == 0x9Fu8) || (c == 0xE3u8 && b[i + 1] == 0x80u8 && b[i
        + 2] == 0x80u8)) {
        3
    } else {
        0
    }
}

/// `skip_ws`: the end of the whitespace at `i`.
pub fn skip_whitespace(b: &[u8], i: usize, end: usize) -> (r: usize)
    requires
        i <= end <= b@.len(),
    ensures
        r == skip_ws(b@, i as int, end as int),
{
    let mut k = i;
    loop
        invariant
            i <= k <= end <= b@.len(),
            skip_ws(b@, k as int, end as int) == skip_ws(b@, i as int, end as int),
        decreases end - k,
    {
        let n = ws_len(b, k, end);
        if n == 0 {
            return k;
        }
        k = k + n;
    }
}

/// `trim_ws_end`: where `start..end` ends once trailing whitespace is dropped.
pub fn trim_whitespace_end(b: &[u8], start: usize, end: usize) -> (r: usize)
    requires
        start <= end <= b@.len(),
    ensures
        r == trim_ws_end(b@, start as int, end as int),
{
    let mut e = end;
    loop
        invariant
            start <= e <= end <= b@.len(),
            trim_ws_end(b@, start as int, e as int) == trim_ws_end(b@, start as int, end as int),
        decreases e - start,
    {
        if e <= start {
            return e;
        }
        if ws_len(b, e - 1, e) == 1 {
            e = e - 1;
        } else if e - start >= 2 && ws_len(b, e - 2, e) == 2 {
            e = e - 2;
        } else if e - start >= 3 && ws_len(b, e - 3, e) == 3 {
            e = e - 3;
        } else {
            return e;
        }
    }
}

/// `spaces_end`: the end of the run of spaces at `i`.
pub fn skip_spaces(b: &[u8], i: usize, end: usize) -> (r: usize)
    requires
        i <= end <= b@.len(),
    ensures
        r == spaces_end(b@, i as int, end as int),
{
    let mut k = i;
    while k < end && b[k] == 32u8
        invariant
            i <= k <= end <= b@.len(),
            spaces_end(b@, k as int, end as int) == spaces_end(b@, i as int, end as int),
        decreases end - k,
    {
        k += 1;
    }
    k
}

/// `first_byte`: the first offset in `i..end` holding `c`.
pub fn find_byte(b: &[u8], i: usize, end: usize, c: u8) -> (r: Option<usize>)
    requires
        i <= end <= b@.len(),
    ensures
        match first_byte(b@, i as int, end as int, c) {
            Some(k) => r == Some(k as usize),
            None => r is None,
        },
{
    let mut k = i;
    while k < end
        invariant
            i <= k <= end <= b@.len(),
            first_byte(b@, k as int, end as int, c) == first_byte(b@, i as int, end as int, c),
        decreases end - k,
    {
        if b[k] == c {
            return Some(k);
        }
        k += 1;
    }
    None
}

/// `first_occurrence` of `ns..ne` from `p` on, which exists when
/// `p <= ns <= ne <= end`.
pub fn find_slice(b: &[u8], p: usize, end: usize, ns: usize, ne: usize) -> (r: usize)
    requires
        p <= ns <= ne <= end <= b@.len(),
    ensures
        first_occurrence(b@, p as int, end as int, ns as int, ne as int) == Some(r as int),
{
    proof {
        lemma_first_occurrence(b@, p as int, end as int, ns as int, ne as int);
    }
    let n = ne - ns;
    let mut q = p;
    loop
        invariant
            p <= q <= ns <= ne <= end <= b@.len(),
            n == ne - ns,
            first_occurrence(b@, q as int, end as int, ns as int, ne as int) == first_occurrence(
                b@,
                p as int,
                end as int,
                ns as int,
                ne as int,
            ),
            (first_occurrence(b@, p as int, end as int, ns as int, ne as int) matches Some(x) && q
                <= x <= ns),
        decreases ns - q,
    {
        let mut k: usize = 0;
        let mut same = true;
        assert(b@.subrange(q as int, q as int) =~= b@.subrange(ns as int, ns as int));
        while k < n
            invariant
                p <= q <= ns <= ne <= end <= b@.len(),
                n == ne - ns,
                k <= n,
                same == (b@.subrange(q as int, q + k) == b@.subrange(ns as int, ns + k)),
            decreases n - k,
        {
            assert(b@.subrange(q as int, q + k + 1) =~= b@.subrange(q as int, q + k).push(b@[q + k]));
            assert(b@.subrange(ns as int, ns + k + 1) =~= b@.subrange(ns as int, ns + k).push(b@[ns + k]));
            if same && b[q + k] != b[ns + k] {
                same = false;
            }
            k += 1;
            assert(same == (b@.subrange(q as int, q + k) == b@.subrange(ns as int, ns + k))) by {
                if !same && b@.subrange(q as int, q + k) == b@.subrange(ns as int, ns + k) {
                    assert(b@.subrange(q as int, q + k - 1) =~= b@.subrange(q as int, q + k).drop_last());
                    assert(b@.subrange(ns as int, ns + k - 1) =~= b@.subrange(ns as int, ns + k).drop_last());
                    assert(b@.subrange(q as int, q + k)[k - 1] == b@[q + k - 1]);
                }
            }
        }
        if same {
            return q;
        }
        proof {
            lemma_first_occurrence(b@, q + 1, end as int, ns as int, ne as int);
        }
        q += 1;
    }
}

} // verus!

//! Byte-level views of UTF-8 text and the slicing helpers the lexers and
//! chunkers share.
use vstd::prelude::*;
use vstd::utf8::*;
use vstd::string::StringSliceAdditionalSpecFns;

verus! {

broadcast use vstd::seq::group_seq_axioms;

/// The characters that the bytes `start..end` of `bytes` encode.
pub open spec fn text_of(bytes: Seq<u8>, start: int, end: int) -> Seq<char> {
    decode_utf8(bytes.subrange(start, end))
}

/// `start..end` is a range of `bytes` whose ends fall on character boundaries,
/// so that slicing a string there does not panic.
pub open spec fn is_slice(bytes: Seq<u8>, start: int, end: int) -> bool {
    &&& 0 <= start <= end <= bytes.len()
    &&& is_char_boundary(bytes, start)
    &&& is_char_boundary(bytes, end)
}

/// The bytes of a string are valid UTF-8 and decode back to its characters.
pub proof fn lemma_str_bytes(s: &str)
    ensures
        valid_utf8(s.spec_bytes()),
        decode_utf8(s.spec_bytes()) == s@,
{
    encode_utf8_valid_utf8(s@);
    encode_utf8_decode_utf8(s@);
}

/// The string slice `s[start..end]`.
pub fn slice_str<'a>(s: &'a str, start: usize, end: usize) -> (r: &'a str)
    requires
        is_slice(s.spec_bytes(), start as int, end as int),
    ensures
        r.spec_bytes() == s.spec_bytes().subrange(start as int, end as int),
        r@ == text_of(s.spec_bytes(), start as int, end as int),
{
    let ghost b = s.spec_bytes();
    proof {
        lemma_str_bytes(s);
        valid_utf8_split(b, start as int);
    }
    let (_, rest) = s.split_at(start);
    let ghost rb = rest.spec_bytes();
    proof {
        assert(rb =~= b.subrange(start as int, b.len() as int));
        if end < b.len() {
            is_char_boundary_iff_not_is_continuation_byte(b, end as int);
            is_char_boundary_iff_not_is_continuation_byte(rb, end - start);
            assert(rb[end - start] == b[end as int]);
        } else {
            is_char_boundary_start_end_of_seq(rb);
        }
    }
    let (mid, _) = rest.split_at(end - start);
    proof {
        assert(mid.spec_bytes() =~= b.subrange(start as int, end as int));
        lemma_str_bytes(mid);
    }
    mid
}

/// A byte that is ASCII starts a character.
pub proof fn lemma_ascii_is_boundary(b: Seq<u8>, i: int)
    requires
        valid_utf8(b),
        0 <= i < b.len(),
        b[i] < 0x80,
    ensures
        is_char_boundary(b, i),
{
    is_char_boundary_iff_not_is_continuation_byte(b, i);
}

/// The end of a text is a character boundary.
pub proof fn lemma_after_end_is_boundary(b: Seq<u8>)
    requires
        valid_utf8(b),
    ensures
        is_char_boundary(b, b.len() as int),
{
    is_char_boundary_start_end_of_seq(b);
}

/// The position just after an ASCII byte starts a character (or is the end).
pub proof fn lemma_after_ascii_is_boundary(b: Seq<u8>, i: int)
    requires
        valid_utf8(b),
        0 < i <= b.len(),
        b[i - 1] < 0x80,
    ensures
        is_char_boundary(b, i),
{
    if i == b.len() {
        is_char_boundary_start_end_of_seq(b);
    } else {
        is_char_boundary_iff_not_is_continuation_byte(b, i - 1);
        valid_utf8_split(b, i - 1);
        let s = b.subrange(i - 1, b.len() as int);
        assert(s[0] == b[i - 1]);
        assert(valid_utf8(s));
        let t = pop_first_scalar(s);
        assert(t =~= b.subrange(i, b.len() as int));
        assert(valid_utf8(t));
        assert(t.len() > 0);
        assert(valid_first_scalar(t));
        assert(t[0] == b[i]);
        is_char_boundary_iff_not_is_continuation_byte(b, i);
    }
}

/// Just past a whole character of width 1, 2 or 3 that starts on a
/// boundary is a boundary again.
pub proof fn lemma_after_char_is_boundary(b: Seq<u8>, i: int, w: int)
    requires
        valid_utf8(b),
        0 <= i,
        i + w <= b.len(),
        is_char_boundary(b, i),
        (w == 1 && b[i] < 0x80) || (w == 2 && 0xC0 <= b[i] <= 0xDF) || (w == 3 && 0xE0 <= b[i] <= 0xEF),
    ensures
        is_char_boundary(b, i + w),
{
    if i + w == b.len() {
        is_char_boundary_start_end_of_seq(b);
    } else {
        valid_utf8_split(b, i);
        let s = b.subrange(i, b.len() as int);
        assert(valid_utf8(s));
        assert(s[0] == b[i]);
        let t = pop_first_scalar(s);
        assert(t =~= b.subrange(i + w, b.len() as int));
        assert(valid_utf8(t));
        assert(valid_first_scalar(t));
        assert(t[0] == b[i + w]);
        is_char_boundary_iff_not_is_continuation_byte(b, i + w);
    }
}

/// A byte that is not a continuation byte starts a character.
pub proof fn lemma_lead_is_boundary(b: Seq<u8>, i: int)
    requires
        valid_utf8(b),
        0 <= i < b.len(),
        !(0x80 <= b[i] <= 0xBF),
    ensures
        is_char_boundary(b, i),
{
    is_char_boundary_iff_not_is_continuation_byte(b, i);
}

/// A boundary inside the text holds a byte that is not a continuation byte.
pub proof fn lemma_boundary_not_continuation(b: Seq<u8>, i: int)
    requires
        valid_utf8(b),
        0 <= i < b.len(),
        is_char_boundary(b, i),
    ensures
        !(0x80 <= b[i] <= 0xBF),
{
    is_char_boundary_iff_not_is_continuation_byte(b, i);
}

/// Whether `start..end` is a range of `bytes` whose ends fall on character
/// boundaries.
pub fn slice_ok(bytes: &[u8], start: usize, end: usize) -> (r: bool)
    requires
        valid_utf8(bytes@),
    ensures
        r == is_slice(bytes@, start as int, end as int),
{
    let n = bytes.len();
    if !(start <= end && end <= n) {
        return false;
    }
    proof {
        is_char_boundary_start_end_of_seq(bytes@);
        if start < n {
            is_char_boundary_iff_not_is_continuation_byte(bytes@, start as int);
        }
        if end < n {
            is_char_boundary_iff_not_is_continuation_byte(bytes@, end as int);
        }
    }
    let start_ok = start == n || !(0x80 <= bytes[start] && bytes[start] <= 0xbf);
    let end_ok = end == n || !(0x80 <= bytes[end] && bytes[end] <= 0xbf);
    start_ok && end_ok
}

} // verus!

//! A source text with an index of where its lines start.
use vstd::prelude::*;
use vstd::string::StringSliceAdditionalSpecFns;
use vstd::utf8::*;
use crate::span::{Position, Span};
use crate::text::{is_slice, lemma_after_ascii_is_boundary, lemma_ascii_is_boundary, lemma_str_bytes, slice_str, text_of};

verus! {

broadcast use vstd::seq::group_seq_axioms;

/// The positions just after each newline among the first `n` bytes, in order.
pub open spec fn newline_starts(b: Seq<u8>, n: int) -> Seq<int>
    decreases n,
{
    if n <= 0 {
        seq![]
    } else {
        newline_starts(b, n - 1) + if b[n - 1] == 10 {
            seq![n]
        } else {
            seq![]
        }
    }
}

/// Where each line of `b` starts: at 0, and just after every newline.
pub open spec fn line_starts_of(b: Seq<u8>) -> Seq<int> {
    seq![0int] + newline_starts(b, b.len() as int)
}

/// Where the line that holds offset `n` starts, looking at the first `n` bytes.
pub open spec fn last_line_start(b: Seq<u8>, n: int) -> int
    decreases n,
{
    if n <= 0 {
        0
    } else if b[n - 1] == 10 {
        n
    } else {
        last_line_start(b, n - 1)
    }
}

pub open spec fn min_int(x: int, y: int) -> int {
    if x <= y {
        x
    } else {
        y
    }
}

/// The position of byte offset `byte` in `b`: its line is one more than the
/// number of newlines before it, and its column counts from the start of that
/// line. Offsets past the end belong to the last line.
pub open spec fn position_of(b: Seq<u8>, byte: usize) -> Position {
    let m = min_int(byte as int, b.len() as int);
    Position {
        byte,
        line: (1 + newline_starts(b, m).len()) as usize,
        column: (byte - last_line_start(b, m) + 1) as usize,
    }
}

/// Position computation does not overflow: the column fits in a `usize`.
pub open spec fn position_fits(b: Seq<u8>, byte: usize) -> bool {
    byte - last_line_start(b, min_int(byte as int, b.len() as int)) + 1 <= usize::MAX
}

/// The byte range of the 1-based line `line` of `b`, without its newline;
/// `None` when there is no such line.
pub open spec fn line_range(b: Seq<u8>, line: int) -> Option<(int, int)> {
    let starts = line_starts_of(b);
    if line < 1 || line > starts.len() {
        None
    } else if line < starts.len() {
        Some((starts[line - 1], starts[line] - 1))
    } else {
        Some((starts[line - 1], b.len() as int))
    }
}

pub proof fn lemma_newline_starts(b: Seq<u8>, n: int)
    requires
        0 <= n <= b.len(),
    ensures
        forall|i: int|
            0 <= i < newline_starts(b, n).len() ==> 1 <= #[trigger] newline_starts(b, n)[i] <= n
                && b[newline_starts(b, n)[i] - 1] == 10,
        forall|i: int, j: int|
            0 <= i < j < newline_starts(b, n).len() ==> newline_starts(b, n)[i]
                < newline_starts(b, n)[j],
        last_line_start(b, n) == if newline_starts(b, n).len() == 0 {
            0
        } else {
            newline_starts(b, n).last()
        },
        newline_starts(b, n).len() <= n,
    decreases n,
{
    if n > 0 {
        lemma_newline_starts(b, n - 1);
    }
}

pub proof fn lemma_newline_starts_prefix(b: Seq<u8>, m: int, n: int)
    requires
        0 <= m <= n <= b.len(),
    ensures
        newline_starts(b, m).len() <= newline_starts(b, n).len(),
        newline_starts(b, n).subrange(0, newline_starts(b, m).len() as int) == newline_starts(
            b,
            m,
        ),
        forall|k: int|
            newline_starts(b, m).len() <= k < newline_starts(b, n).len() ==> #[trigger] newline_starts(
                b,
                n,
            )[k] > m,
    decreases n,
{
    if n > m {
        lemma_newline_starts_prefix(b, m, n - 1);
        assert(newline_starts(b, n).subrange(0, newline_starts(b, m).len() as int)
            =~= newline_starts(b, n - 1).subrange(0, newline_starts(b, m).len() as int));
    } else {
        assert(newline_starts(b, n).subrange(0, newline_starts(b, m).len() as int)
            =~= newline_starts(b, m));
    }
}

pub proof fn lemma_line_starts(b: Seq<u8>)
    ensures
        1 <= line_starts_of(b).len() <= b.len() + 1,
        line_starts_of(b)[0] == 0,
        forall|i: int, j: int|
            #![trigger line_starts_of(b)[i], line_starts_of(b)[j]]
            0 <= i < j < line_starts_of(b).len() ==> line_starts_of(b)[i] < line_starts_of(b)[j],
        forall|i: int|
            0 <= i < line_starts_of(b).len() ==> 0 <= #[trigger] line_starts_of(b)[i] <= b.len(),
        forall|i: int|
            1 <= i < line_starts_of(b).len() ==> b[#[trigger] line_starts_of(b)[i] - 1] == 10,
{
    let ns = newline_starts(b, b.len() as int);
    lemma_newline_starts(b, b.len() as int);
    let s = line_starts_of(b);
    assert forall|i: int| 1 <= i < s.len() implies s[i] == ns[i - 1] by {}
    assert forall|i: int, j: int|
        #![trigger s[i], s[j]]
        0 <= i < j < s.len() implies s[i] < s[j] by {
        if i > 0 {
            assert(s[i] == ns[i - 1]);
        }
        assert(s[j] == ns[j - 1]);
    }
}

/// The position of an offset names the line that holds it: that line's range
/// runs from at or before the offset to at or after it, and the column counts
/// from the line's start.
pub proof fn lemma_position_in_line(b: Seq<u8>, byte: usize)
    requires
        byte <= b.len(),
        b.len() < usize::MAX,
    ensures
        line_range(b, position_of(b, byte).line as int) matches Some((s, e)) && s <= byte <= e
            && position_of(b, byte).column == byte - s + 1,
{
    let n = b.len() as int;
    let o = byte as int;
    lemma_newline_starts(b, o);
    lemma_newline_starts(b, n);
    lemma_newline_starts_prefix(b, o, n);
    let k = newline_starts(b, o).len() as int;
    let ns = newline_starts(b, n);
    let starts = line_starts_of(b);
    assert(starts.len() == ns.len() + 1);
    assert(position_of(b, byte).line as int == k + 1);
    if k > 0 {
        assert(ns.subrange(0, k)[k - 1] == ns[k - 1]);
        assert(starts[k] == ns[k - 1]);
        assert(last_line_start(b, o) == newline_starts(b, o).last());
    } else {
        assert(starts[k] == 0);
    }
    assert(starts[k] == last_line_start(b, o));
    if k + 1 < starts.len() {
        assert(starts[k + 1] == ns[k]);
        assert(ns[k] > o);
    }
}

/// The number of newline bytes in `b`.
pub open spec fn newline_count(b: Seq<u8>) -> nat {
    b.filter(|c: u8| c == 10).len()
}

proof fn lemma_newline_starts_count(b: Seq<u8>, n: int)
    requires
        0 <= n <= b.len(),
    ensures
        newline_starts(b, n).len() == b.subrange(0, n).filter(|c: u8| c == 10).len(),
        forall|i: int| 0 <= i < n && b[i] == 10 ==> exists|j: int|
            0 <= j < newline_starts(b, n).len() && #[trigger] newline_starts(b, n)[j] == i + 1,
    decreases n,
{
    reveal(Seq::filter);
    if n > 0 {
        lemma_newline_starts_count(b, n - 1);
        assert(b.subrange(0, n).drop_last() =~= b.subrange(0, n - 1));
        assert(b.subrange(0, n).last() == b[n - 1]);
        let prev = newline_starts(b, n - 1);
        let cur = newline_starts(b, n);
        assert forall|i: int| 0 <= i < n && b[i] == 10 implies exists|j: int|
            0 <= j < cur.len() && #[trigger] cur[j] == i + 1 by {
            if i < n - 1 {
                let j = choose|j: int| 0 <= j < prev.len() && #[trigger] prev[j] == i + 1;
                assert(cur[j] == prev[j]);
            } else {
                assert(cur[prev.len() as int] == n);
            }
        }
    }
}

/// A text has one line more than it has newlines: there is a line `k`
/// exactly for `1 <= k <= newline_count(b) + 1`. The lines rejoin to the
/// text: the first starts at 0, the last ends at the end, no line holds a
/// newline, and each line but the last is followed by a newline just before
/// the start of the next.
pub proof fn lemma_lines_cover_text(b: Seq<u8>)
    ensures
        forall|k: int| (#[trigger] line_range(b, k)) is Some <==> 1 <= k <= newline_count(b) + 1,
        line_range(b, 1) matches Some((s, e)) && s == 0,
        line_range(b, newline_count(b) + 1int) matches Some((s, e)) && e == b.len(),
        forall|k: int|
            1 <= k <= newline_count(b) + 1 ==> (#[trigger] line_range(b, k) matches Some((s, e)) && 0 <= s <= e
                <= b.len() && forall|i: int| s <= i < e ==> b[i] != 10),
        forall|k: int|
            1 <= k <= newline_count(b) ==> (#[trigger] line_range(b, k) matches Some((s, e)) && line_range(b, k + 1) matches Some(
                (s2, e2),
            ) && e < b.len() && b[e] == 10 && s2 == e + 1),
{
    let n = b.len() as int;
    lemma_newline_starts_count(b, n);
    lemma_newline_starts(b, n);
    lemma_line_starts(b);
    assert(b.subrange(0, n) =~= b);
    let ns = newline_starts(b, n);
    let starts = line_starts_of(b);
    assert(starts.len() == newline_count(b) + 1);
    assert forall|k: int| 1 <= k <= newline_count(b) + 1 implies (#[trigger] line_range(b, k) matches Some((s, e))
        && 0 <= s <= e <= b.len() && forall|i: int| s <= i < e ==> b[i] != 10) by {
        let s = starts[k - 1];
        let e = if k < starts.len() { starts[k] - 1 } else { n };
        if k < starts.len() {
            assert(starts[k - 1] < starts[k]);
        }
        assert forall|i: int| s <= i < e implies b[i] != 10 by {
            if b[i] == 10 {
                let j = choose|j: int| 0 <= j < ns.len() && #[trigger] ns[j] == i + 1;
                assert(starts[j + 1] == ns[j]);
                if j + 1 <= k - 1 {
                    assert(starts[j + 1] <= starts[k - 1]);
                } else if k < starts.len() {
                    assert(starts[k] <= starts[j + 1]);
                }
            }
        }
    }
    assert forall|k: int| 1 <= k <= newline_count(b) implies (#[trigger] line_range(b, k) matches Some((s, e))
        && line_range(b, k + 1) matches Some((s2, e2)) && e < b.len() && b[e] == 10 && s2 == e + 1) by {
        assert(b[starts[k] - 1] == 10);
    }
}

/// A source text, with the offsets at which its lines start.
pub struct Source<'a> {
    content: &'a str,
    line_starts: Vec<usize>,
}

impl<'a> Source<'a> {
    #[verifier::type_invariant]
    spec fn well_formed(self) -> bool {
        &&& self.line_starts@.len() == line_starts_of(self.content.spec_bytes()).len()
        &&& forall|i: int|
            0 <= i < self.line_starts@.len() ==> self.line_starts@[i] as int == #[trigger] line_starts_of(
                self.content.spec_bytes(),
            )[i]
    }

    /// The text this source holds.
    pub closed spec fn spec_content(self) -> &'a str {
        self.content
    }

    /// The bytes of the text this source holds.
    pub open spec fn text(self) -> Seq<u8> {
        self.spec_content().spec_bytes()
    }

    pub fn new(content: &'a str) -> (s: Self)
        ensures
            s.spec_content() == content,
    {
        let bytes = content.as_bytes();
        let ghost b = bytes@;
        let mut line_starts: Vec<usize> = Vec::new();
        line_starts.push(0);
        let mut index: usize = 0;
        while index < bytes.len()
            invariant
                b == content.spec_bytes(),
                b == bytes@,
                index <= bytes.len(),
                line_starts@.len() == 1 + newline_starts(b, index as int).len(),
                forall|i: int|
                    0 <= i < line_starts@.len() ==> line_starts@[i] as int == #[trigger] (seq![0int]
                        + newline_starts(b, index as int))[i],
            decreases bytes.len() - index,
        {
            let ghost before = seq![0int] + newline_starts(b, index as int);
            if bytes[index] == 10u8 {
                line_starts.push(index + 1);
            }
            index += 1;
            let ghost after = seq![0int] + newline_starts(b, index as int);
            assert(after =~= before + if b[index - 1] == 10 {
                seq![index as int]
            } else {
                seq![]
            });
        }
        assert(bytes@.len() == b.len());
        Source { content, line_starts }
    }

    pub fn content(&self) -> (c: &'a str)
        ensures
            c == self.spec_content(),
    {
        self.content
    }

    /// The line and column of byte offset `byte`.
    pub fn position(&self, byte: usize) -> (p: Position)
        requires
            position_fits(self.text(), byte),
        ensures
            p == position_of(self.text(), byte),
    {
        proof {
            use_type_invariant(self);
        }
        let ghost b = self.text();
        let ghost starts = line_starts_of(b);
        let ghost m = min_int(byte as int, b.len() as int);
        proof {
            lemma_newline_starts(b, b.len() as int);
            lemma_newline_starts(b, m);
            lemma_newline_starts_prefix(b, m, b.len() as int);
            lemma_line_starts(b);
        }
        // Binary search for the number of line starts at or before `byte`.
        let mut lo: usize = 0;
        let mut hi: usize = self.line_starts.len();
        while lo < hi
            invariant
                0 <= lo <= hi <= self.line_starts@.len(),
                self.line_starts@.len() == starts.len(),
                forall|i: int|
                    0 <= i < self.line_starts@.len() ==> self.line_starts@[i] as int
                        == #[trigger] starts[i],
                forall|k: int| 0 <= k < lo ==> #[trigger] starts[k] <= byte,
                forall|k: int| hi <= k < starts.len() ==> #[trigger] starts[k] > byte,
                forall|i: int, j: int|
                    #![trigger starts[i], starts[j]]
                    0 <= i < j < starts.len() ==> starts[i] < starts[j],
            decreases hi - lo,
        {
            let mid = lo + (hi - lo) / 2;
            if self.line_starts[mid] <= byte {
                assert forall|k: int| 0 <= k < mid + 1 implies #[trigger] starts[k] <= byte by {
                    if k < mid {
                        assert(starts[k] < starts[mid as int]);
                    }
                }
                lo = mid + 1;
            } else {
                assert forall|k: int| mid <= k < starts.len() implies #[trigger] starts[k] > byte by {
                    if k > mid {
                        assert(starts[mid as int] < starts[k]);
                    }
                }
                hi = mid;
            }
        }
        let ghost c = newline_starts(b, m).len() as int;
        proof {
            assert(starts[0] == 0);
            assert forall|k: int| 0 <= k <= c implies #[trigger] starts[k] <= m by {
                if k > 0 {
                    assert(starts[k] == newline_starts(b, b.len() as int)[k - 1]);
                    assert(newline_starts(b, m)[k - 1] == newline_starts(
                        b,
                        b.len() as int,
                    ).subrange(0, c)[k - 1]);
                }
            }
            if c + 1 < starts.len() {
                assert(starts[c + 1] == newline_starts(b, b.len() as int)[c]);
                if m == b.len() {
                    assert(false);
                }
            }
            if lo < c + 1 {
                assert(starts[lo as int] <= m);
                assert(false);
            }
            if lo > c + 1 {
                assert(starts[c + 1] <= byte);
                assert(starts[c + 1] == newline_starts(b, b.len() as int)[c]);
                assert(false);
            }
            assert(lo == c + 1);
            assert(starts[c] == last_line_start(b, m));
            if c > 0 {
                assert(newline_starts(b, m).last() == newline_starts(b, b.len() as int)[c - 1]);
            }
        }
        let line = lo - 1;
        let line_start = self.line_starts[line];
        Position { byte, line: line + 1, column: byte - line_start + 1 }
    }

    /// The text covered by `span`.
    pub fn span(&self, span: Span) -> (t: &'a str)
        requires
            is_slice(self.text(), span.start as int, span.end as int),
        ensures
            t@ == text_of(self.text(), span.start as int, span.end as int),
            t.spec_bytes() == self.text().subrange(span.start as int, span.end as int),
    {
        slice_str(self.content, span.start, span.end)
    }

    /// The text of the 1-based line `line`, without its newline.
    pub fn line(&self, line: usize) -> (r: Option<&'a str>)
        ensures
            r is None <==> line_range(self.text(), line as int) is None,
            r matches Some(t) ==> (line_range(self.text(), line as int) matches Some((s, e))
                && t@ == text_of(self.text(), s, e) && t.spec_bytes() == self.text().subrange(
                s,
                e,
            )),
    {
        proof {
            use_type_invariant(self);
        }
        let ghost b = self.text();
        let ghost starts = line_starts_of(b);
        proof {
            lemma_line_starts(b);
        }
        if line == 0 {
            return None;
        }
        let index = line - 1;
        if index >= self.line_starts.len() {
            return None;
        }
        let start = self.line_starts[index];
        proof {
            lemma_str_bytes(self.content);
            lemma_newline_starts(b, b.len() as int);
            if index == 0 {
                is_char_boundary_start_end_of_seq(b);
            } else {
                assert(starts[index as int] == newline_starts(b, b.len() as int)[index - 1]);
                lemma_after_ascii_is_boundary(b, start as int);
            }
        }
        let end = if index + 1 < self.line_starts.len() {
            let next = self.line_starts[index + 1];
            proof {
                assert(starts[index + 1] == newline_starts(b, b.len() as int)[index as int]);
                if index > 0 {
                    assert(starts[index as int] == newline_starts(b, b.len() as int)[index - 1]);
                }
                lemma_ascii_is_boundary(b, next - 1);
                assert(starts[index as int] < starts[index + 1]);
            }
            next - 1
        } else {
            proof {
                is_char_boundary_start_end_of_seq(b);
            }
            let bytes = self.content.as_bytes();
            assert(bytes@.len() == b.len());
            bytes.len()
        };
        Some(slice_str(self.content, start, end))
    }
}

} // verus!

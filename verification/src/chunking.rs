//! What the chunkers share: the raw description of a chunk, how it is turned
//! into a chunk against its source, and how chunk paths are spelled.
use vstd::prelude::*;
use vstd::string::{StrSliceExecFns, StringExecFns};
use crate::chunk::{ChunkKind, CodeChunk, SpecChunk};
use crate::language::Language;
use crate::path::ChunkPath;
use crate::source::{lemma_newline_starts, position_fits, position_of, Source};
use crate::span::Span;
use crate::syntax::opt_string_view;
use crate::chunk::opt_path_view;
use crate::text::{is_slice, text_of};

verus! {

broadcast use vstd::seq::group_seq_axioms;

/// A chunk before it is measured against its source: what it is, where it
/// sits, and the byte range it covers.
pub struct RawChunk {
    pub kind: ChunkKind,
    pub name: Option<Seq<char>>,
    pub parent: Option<Seq<char>>,
    pub path: Option<Seq<char>>,
    pub span: Span,
}

/// The chunk a raw chunk becomes: its lines are those of its span's ends, its
/// content the text of its span.
pub open spec fn render(r: RawChunk, b: Seq<u8>, language: Language) -> SpecChunk {
    SpecChunk {
        kind: r.kind,
        name: r.name,
        parent: r.parent,
        path: r.path,
        language,
        start_line: position_of(b, r.span.start).line,
        end_line: position_of(b, r.span.end).line,
        content: text_of(b, r.span.start as int, r.span.end as int),
    }
}

pub open spec fn render_all(rs: Seq<RawChunk>, b: Seq<u8>, language: Language) -> Seq<SpecChunk> {
    rs.map_values(|r: RawChunk| render(r, b, language))
}

/// A raw chunk can be rendered without panicking: its span can be sliced out
/// of the source and the columns of its ends fit in a `usize`.
pub open spec fn renderable(r: RawChunk, b: Seq<u8>) -> bool {
    &&& is_slice(b, r.span.start as int, r.span.end as int)
    &&& position_fits(b, r.span.start)
    &&& position_fits(b, r.span.end)
}

pub open spec fn all_renderable(rs: Seq<RawChunk>, b: Seq<u8>) -> bool {
    forall|i: int| 0 <= i < rs.len() ==> renderable(#[trigger] rs[i], b)
}

/// Rendering and renderability split over concatenation.
pub proof fn lemma_render_concat(a: Seq<RawChunk>, c: Seq<RawChunk>, b: Seq<u8>, language: Language)
    ensures
        render_all(a + c, b, language) == render_all(a, b, language) + render_all(c, b, language),
        all_renderable(a + c, b) ==> all_renderable(a, b) && all_renderable(c, b),
{
    assert(render_all(a + c, b, language) =~= render_all(a, b, language) + render_all(c, b, language));
    if all_renderable(a + c, b) {
        assert forall|i: int| 0 <= i < a.len() implies renderable(#[trigger] a[i], b) by {
            assert((a + c)[i] == a[i]);
        }
        assert forall|i: int| 0 <= i < c.len() implies renderable(#[trigger] c[i], b) by {
            assert((a + c)[a.len() + i] == c[i]);
        }
    }
}

/// Renderability joins over concatenation.
pub proof fn lemma_renderable_join(a: Seq<RawChunk>, c: Seq<RawChunk>, b: Seq<u8>)
    requires
        all_renderable(a, b),
        all_renderable(c, b),
    ensures
        all_renderable(a + c, b),
{
    assert forall|i: int| 0 <= i < (a + c).len() implies renderable(#[trigger] (a + c)[i], b) by {
        if i < a.len() {
            assert((a + c)[i] == a[i]);
        } else {
            assert((a + c)[a.len() + (i - a.len())] == c[i - a.len()]);
        }
    }
}

/// A chunk whose span covers whole characters of a text that fits in a
/// `usize` can be rendered.
pub proof fn lemma_slice_renderable(r: RawChunk, b: Seq<u8>)
    requires
        is_slice(b, r.span.start as int, r.span.end as int),
        b.len() < usize::MAX,
    ensures
        renderable(r, b),
{
    lemma_newline_starts(b, r.span.start as int);
    lemma_newline_starts(b, r.span.end as int);
}

/// Renderability passes to a prefix.
pub proof fn lemma_renderable_prefix(a: Seq<RawChunk>, n: int, b: Seq<u8>)
    requires
        0 <= n <= a.len(),
        all_renderable(a, b),
    ensures
        all_renderable(a.subrange(0, n), b),
{
    assert forall|i: int| 0 <= i < n implies renderable(#[trigger] a.subrange(0, n)[i], b) by {
        assert(a.subrange(0, n)[i] == a[i]);
    }
}

pub open spec fn opt_str_view(s: Option<&str>) -> Option<Seq<char>> {
    match s {
        Some(s) => Some(s@),
        None => None,
    }
}

/// The decimal digit character for `d < 10`.
pub open spec fn digit_char(d: nat) -> char {
    (48 + d) as char
}

/// The decimal spelling of `n`.
pub open spec fn decimal(n: nat) -> Seq<char>
    decreases n,
{
    if n < 10 {
        seq![digit_char(n)]
    } else {
        decimal(n / 10) + seq![digit_char(n % 10)]
    }
}

/// `name` under the parent path `pp`: `pp.name`, or `name` at the top.
pub open spec fn dotted(pp: Option<Seq<char>>, name: Seq<char>) -> Seq<char> {
    match pp {
        Some(p) => p + seq!['.'] + name,
        None => name,
    }
}

/// Item `i` of the array at path `ap`: `ap[i]`, or `[i]` without a path.
pub open spec fn indexed(ap: Option<Seq<char>>, i: nat) -> Seq<char> {
    match ap {
        Some(p) => p + seq!['['] + decimal(i) + seq![']'],
        None => seq!['['] + decimal(i) + seq![']'],
    }
}

/// What precedes the last occurrence of `c` in `s`, if `c` occurs.
pub open spec fn before_last(s: Seq<char>, c: char) -> Option<Seq<char>>
    decreases s.len(),
{
    if s.len() == 0 {
        None
    } else if s.last() == c {
        Some(s.drop_last())
    } else {
        before_last(s.drop_last(), c)
    }
}

/// The path `p`, or the empty sequence for no path.
pub open spec fn path_prefix(p: Option<Seq<char>>) -> Seq<char> {
    match p {
        Some(p) => p,
        None => seq![],
    }
}

/// The path of `r` extends its parent's path by one step named after `r`:
/// `parent.name` (just `name` at the top level), or the parent's path
/// followed directly by the name, as with an item `[i]`.
pub open spec fn steps_from_parent(r: RawChunk) -> bool {
    match r.name {
        Some(n) => r.path == Some(dotted(r.parent, n)) || r.path == Some(path_prefix(r.parent) + n),
        None => false,
    }
}

pub open spec fn all_step_from_parent(rs: Seq<RawChunk>) -> bool {
    forall|i: int| 0 <= i < rs.len() ==> steps_from_parent(#[trigger] rs[i])
}

/// Every chunk of `rs` has `p` as its parent, or the path of a chunk that
/// comes before it.
pub open spec fn parents_come_first(rs: Seq<RawChunk>, p: Option<Seq<char>>) -> bool {
    forall|i: int|
        0 <= i < rs.len() ==> (#[trigger] rs[i]).parent == p || exists|j: int|
            0 <= j < i && (#[trigger] rs[j]).path == rs[i].parent
}

/// The path one step below `parent` for a chunk named `name`: the parent's
/// path followed directly by the name when the name starts with `'['` (an
/// item `[i]`), else `parent.name` (just `name` at the top level).
pub open spec fn path_step(parent: Option<Seq<char>>, name: Seq<char>) -> Seq<char> {
    if name.len() > 0 && name[0] == '[' {
        path_prefix(parent) + name
    } else {
        dotted(parent, name)
    }
}

/// The path of `r` is exactly one step below its parent's path.
pub open spec fn steps_exactly(r: RawChunk) -> bool {
    r.name matches Some(n) && r.path == Some(path_step(r.parent, n))
}

pub open spec fn all_step_exactly(rs: Seq<RawChunk>) -> bool {
    forall|i: int| 0 <= i < rs.len() ==> steps_exactly(#[trigger] rs[i])
}

pub proof fn lemma_exact_concat(a: Seq<RawChunk>, c: Seq<RawChunk>)
    requires
        all_step_exactly(a),
        all_step_exactly(c),
    ensures
        all_step_exactly(a + c),
{
    assert forall|i: int| 0 <= i < (a + c).len() implies steps_exactly(#[trigger] (a + c)[i]) by {
        if i < a.len() {
            assert((a + c)[i] == a[i]);
        } else {
            assert((a + c)[i] == c[i - a.len()]);
        }
    }
}

pub proof fn lemma_steps_concat(a: Seq<RawChunk>, c: Seq<RawChunk>)
    requires
        all_step_from_parent(a),
        all_step_from_parent(c),
    ensures
        all_step_from_parent(a + c),
{
    assert forall|i: int| 0 <= i < (a + c).len() implies steps_from_parent(#[trigger] (a + c)[i]) by {
        if i < a.len() {
            assert((a + c)[i] == a[i]);
        } else {
            assert((a + c)[i] == c[i - a.len()]);
        }
    }
}

/// Chunks whose parents come first, followed by chunks whose parents come
/// first under a parent `q` that is `p` or the path of one of the first ones.
pub proof fn lemma_parents_concat(a: Seq<RawChunk>, c: Seq<RawChunk>, p: Option<Seq<char>>, q: Option<Seq<char>>)
    requires
        parents_come_first(a, p),
        parents_come_first(c, q),
        q == p || exists|j: int| 0 <= j < a.len() && (#[trigger] a[j]).path == q,
    ensures
        parents_come_first(a + c, p),
{
    let all = a + c;
    assert forall|i: int| 0 <= i < all.len() implies (#[trigger] all[i]).parent == p || exists|j: int|
        0 <= j < i && (#[trigger] all[j]).path == all[i].parent by {
        if i < a.len() {
            assert(all[i] == a[i]);
            if a[i].parent != p {
                let j = choose|j: int| 0 <= j < i && (#[trigger] a[j]).path == a[i].parent;
                assert(all[j] == a[j]);
            }
        } else {
            let k = i - a.len();
            assert(all[i] == c[k]);
            if c[k].parent == q {
                if q != p {
                    let j = choose|j: int| 0 <= j < a.len() && (#[trigger] a[j]).path == q;
                    assert(all[j] == a[j]);
                }
            } else {
                let j = choose|j: int| 0 <= j < k && (#[trigger] c[j]).path == c[k].parent;
                assert(all[a.len() + j] == c[j]);
            }
        }
    }
}

fn digit_str(d: usize) -> (s: &'static str)
    requires
        d < 10,
    ensures
        s@ == seq![digit_char(d as nat)],
{
    proof {
        reveal_strlit("0");
        reveal_strlit("1");
        reveal_strlit("2");
        reveal_strlit("3");
        reveal_strlit("4");
        reveal_strlit("5");
        reveal_strlit("6");
        reveal_strlit("7");
        reveal_strlit("8");
        reveal_strlit("9");
    }
    if d == 0 {
        "0"
    } else if d == 1 {
        "1"
    } else if d == 2 {
        "2"
    } else if d == 3 {
        "3"
    } else if d == 4 {
        "4"
    } else if d == 5 {
        "5"
    } else if d == 6 {
        "6"
    } else if d == 7 {
        "7"
    } else if d == 8 {
        "8"
    } else {
        "9"
    }
}

/// The decimal spelling of `n`.
pub fn decimal_string(n: usize) -> (s: String)
    ensures
        s@ == decimal(n as nat),
    decreases n,
{
    if n < 10 {
        String::from_str(digit_str(n))
    } else {
        decimal_string(n / 10).concat(digit_str(n % 10))
    }
}

/// The path `pp.name`, or `name` without a parent path.
pub fn dotted_path(pp: Option<&str>, name: &str) -> (s: String)
    ensures
        s@ == dotted(opt_str_view(pp), name@),
{
    proof {
        reveal_strlit(".");
    }
    match pp {
        Some(p) => String::from_str(p).concat(".").concat(name),
        None => String::from_str(name),
    }
}

/// The path `ap[i]`, or `[i]` without an array path.
pub fn indexed_path(ap: Option<&str>, i: usize) -> (s: String)
    ensures
        s@ == indexed(opt_str_view(ap), i as nat),
{
    proof {
        reveal_strlit("[");
        reveal_strlit("]");
    }
    let digits = decimal_string(i);
    match ap {
        Some(p) => String::from_str(p).concat("[").concat(digits.as_str()).concat("]"),
        None => String::from_str("[").concat(digits.as_str()).concat("]"),
    }
}

/// What precedes the last `'['` in `s`, if there is one.
pub fn before_last_bracket(s: &str) -> (r: Option<&str>)
    ensures
        opt_str_view(r) == before_last(s@, '['),
{
    let n = s.unicode_len();
    let mut i = n;
    assert(s@.subrange(0, i as int) =~= s@);
    while i > 0
        invariant
            i <= n == s@.len(),
            before_last(s@, '[') == before_last(s@.subrange(0, i as int), '['),
        decreases i,
    {
        let c = s.get_char(i - 1);
        if c == '[' {
            assert(s@.subrange(0, i as int).drop_last() =~= s@.subrange(0, i - 1));
            return Some(s.substring_char(0, i - 1));
        }
        assert(s@.subrange(0, i as int).drop_last() =~= s@.subrange(0, i - 1));
        i -= 1;
    }
    None
}

/// The chunk for a raw chunk whose span and lines the source can give.
pub fn make_chunk(
    source: &Source,
    kind: ChunkKind,
    name: Option<String>,
    parent: Option<ChunkPath>,
    path: Option<ChunkPath>,
    language: Language,
    span: Span,
) -> (c: CodeChunk)
    requires
        renderable(
            RawChunk {
                kind,
                name: opt_string_view(name),
                parent: opt_path_view(parent),
                path: opt_path_view(path),
                span,
            },
            source.text(),
        ),
    ensures
        c@ == render(
            RawChunk {
                kind,
                name: opt_string_view(name),
                parent: opt_path_view(parent),
                path: opt_path_view(path),
                span,
            },
            source.text(),
            language,
        ),
{
    let start = source.position(span.start);
    let end = source.position(span.end);
    let content = String::from_str(source.span(span));
    CodeChunk {
        kind,
        name,
        parent,
        path,
        language,
        start_line: start.line,
        end_line: end.line,
        content,
    }
}

} // verus!

//! Splits YAML text into tokens, line by line, tracking indentation.
use vstd::prelude::*;
use vstd::string::StringSliceAdditionalSpecFns;
use crate::span::Span;
use crate::whitespace::{
    find_byte, find_slice, first_byte, first_occurrence, lemma_first_byte, lemma_first_occurrence,
    lemma_scans, lemma_trim_ws_end, skip_spaces, skip_whitespace, skip_ws, spaces_end,
    trim_whitespace_end, trim_ws_end, ws_len_at, lemma_first_occurrence_matches, lemma_skip_ws_boundary,
    lemma_spaces_end_after_space, lemma_trim_ws_end_boundary,
};
use crate::text::{is_slice, lemma_after_ascii_is_boundary, lemma_boundary_not_continuation, lemma_lead_is_boundary};
use vstd::utf8::{is_char_boundary, is_char_boundary_start_end_of_seq, valid_utf8};

verus! {

broadcast use vstd::seq::group_seq_axioms;

#[derive(Debug, Clone, Copy, PartialEq, Eq, Structural)]
pub struct YamlToken {
    pub kind: YamlTokenKind,
    pub span: Span,
}

#[derive(Debug, Clone, Copy, PartialEq, Eq, Structural)]
pub enum YamlTokenKind {
    Indent,
    Dedent,
    Newline,
    Key,
    Scalar,
    Dash,
    Colon,
    Comment,
    Unknown,
}

pub open spec fn yt(kind: YamlTokenKind, start: int, end: int) -> YamlToken {
    YamlToken { kind, span: Span { start: start as usize, end: end as usize } }
}

/// Where the line that starts at `o` ends: just past its newline, or at the
/// end of the text.
pub open spec fn line_end(b: Seq<u8>, o: int) -> int {
    match first_byte(b, o, b.len() as int, 10) {
        Some(k) => k + 1,
        None => b.len() as int,
    }
}

/// The line `o..e` ends with a newline.
pub open spec fn has_newline(b: Seq<u8>, o: int, e: int) -> bool {
    e > o && b[e - 1] == 10
}

/// Where the text of the line `o..e` ends, before its newline.
pub open spec fn content_end(b: Seq<u8>, o: int, e: int) -> int {
    if has_newline(b, o, e) {
        e - 1
    } else {
        e
    }
}

/// The newline token of the line `o..e`, if it has a newline.
pub open spec fn newline_token(b: Seq<u8>, o: int, e: int) -> Seq<YamlToken> {
    if has_newline(b, o, e) {
        seq![yt(YamlTokenKind::Newline, e - 1, e)]
    } else {
        seq![]
    }
}

/// An indentation stack: it starts with 0 and grows strictly.
pub open spec fn wf_stack(s: Seq<usize>) -> bool {
    &&& s.len() >= 1
    &&& s[0] == 0
    &&& forall|i: int, j: int| 0 <= i < j < s.len() ==> #[trigger] s[i] < #[trigger] s[j]
}

/// Pops the indentation levels deeper than `ind`, with a dedent token at `at`
/// for each.
pub open spec fn dedent(stack: Seq<usize>, ind: int, at: int) -> (Seq<YamlToken>, Seq<usize>)
    decreases stack.len(),
{
    if stack.len() == 0 || ind >= stack.last() {
        (seq![], stack)
    } else {
        let (t, s) = dedent(stack.drop_last(), ind, at);
        (seq![yt(YamlTokenKind::Dedent, at, at)] + t, s)
    }
}

/// The tokens of the text `c0..ce` of a line, after its indentation: a
/// comment; a dash with an optional key, colon and scalar or a scalar after
/// it; a key, a colon and an optional scalar; or a scalar.
pub open spec fn yl_content(b: Seq<u8>, c0: int, ce: int) -> Seq<YamlToken> {
    if b[c0] == 35 {
        seq![yt(YamlTokenKind::Comment, c0, ce)]
    } else if (ce - c0 >= 2 && b[c0] == 45 && b[c0 + 1] == 32) || (ce - c0 == 1 && b[c0] == 45) {
        let vs = skip_ws(b, c0 + 1, ce);
        seq![yt(YamlTokenKind::Dash, c0, c0 + 1)] + if vs >= ce {
            seq![]
        } else {
            let value_start = first_occurrence(b, c0, ce, vs, ce).unwrap();
            match first_byte(b, vs, ce, 58) {
                Some(k) => {
                    let key_end = value_start + (trim_ws_end(b, vs, k) - vs);
                    let ss = skip_ws(b, k + 1, ce);
                    seq![
                        yt(YamlTokenKind::Key, value_start, key_end),
                        yt(YamlTokenKind::Colon, key_end, key_end + 1),
                    ] + if ss >= ce {
                        seq![]
                    } else {
                        let scalar_start = key_end + 1 + (ss - (k + 1));
                        seq![yt(YamlTokenKind::Scalar, scalar_start, scalar_start + (ce - ss))]
                    }
                },
                None => seq![yt(YamlTokenKind::Scalar, value_start, value_start + (ce - vs))],
            }
        }
    } else {
        match first_byte(b, c0, ce, 58) {
            Some(k) => {
                let vs = skip_ws(b, k + 1, ce);
                seq![yt(YamlTokenKind::Key, c0, k), yt(YamlTokenKind::Colon, k, k + 1)] + if vs
                    >= ce {
                    seq![]
                } else {
                    seq![yt(YamlTokenKind::Scalar, vs, ce)]
                }
            },
            None => seq![yt(YamlTokenKind::Scalar, c0, ce)],
        }
    }
}

/// The tokens of the line `o..e` and the indentation stack after it. A blank
/// line gives only its newline. Deeper indentation pushes a level and gives
/// an indent token; shallower indentation pops levels with a dedent token
/// each, and an indentation that matches no open level gives an unknown
/// token and ends the line.
pub open spec fn yl_line(b: Seq<u8>, o: int, e: int, stack: Seq<usize>) -> (Seq<YamlToken>, Seq<usize>) {
    let ce = content_end(b, o, e);
    if skip_ws(b, o, ce) == ce {
        (newline_token(b, o, e), stack)
    } else {
        let c0 = spaces_end(b, o, ce);
        let ind = c0 - o;
        let top = stack.last();
        if ind > top {
            (
                seq![yt(YamlTokenKind::Indent, o + top, o + ind)] + yl_content(b, c0, ce)
                    + newline_token(b, o, e),
                stack.push(ind as usize),
            )
        } else if ind < top {
            let (d, s) = dedent(stack, ind, o + ind);
            if ind != s.last() {
                (d + seq![yt(YamlTokenKind::Unknown, o, o + ind)], s)
            } else {
                (d + yl_content(b, c0, ce) + newline_token(b, o, e), s)
            }
        } else {
            (yl_content(b, c0, ce) + newline_token(b, o, e), stack)
        }
    }
}

pub proof fn lemma_line_end(b: Seq<u8>, o: int)
    requires
        0 <= o < b.len(),
    ensures
        o < line_end(b, o) <= b.len(),
        has_newline(b, o, line_end(b, o)) <==> first_byte(b, o, b.len() as int, 10) is Some,
{
    lemma_first_byte(b, o, b.len() as int, 10);
    if first_byte(b, o, b.len() as int, 10) is None {
        if has_newline(b, o, b.len() as int) {
            assert(b[b.len() - 1] != 10);
        }
    }
}

/// The tokens of the lines from offset `o` on, and the stack after them.
pub open spec fn yl_from(b: Seq<u8>, o: int, stack: Seq<usize>) -> (Seq<YamlToken>, Seq<usize>)
    decreases b.len() - o,
    via yl_from_decreases
{
    if o < 0 || o >= b.len() {
        (seq![], stack)
    } else {
        let e = line_end(b, o);
        let (t1, s1) = yl_line(b, o, e, stack);
        let (t2, s2) = yl_from(b, e, s1);
        (t1 + t2, s2)
    }
}

#[via_fn]
proof fn yl_from_decreases(b: Seq<u8>, o: int, stack: Seq<usize>) {
    if 0 <= o < b.len() {
        lemma_line_end(b, o);
    }
}

/// The tokens of a YAML text: those of its lines, then a dedent at the end of
/// the text for every indentation level still open.
pub open spec fn yaml_tokens(b: Seq<u8>) -> Seq<YamlToken> {
    let (t, s) = yl_from(b, 0, seq![0usize]);
    t + Seq::new((s.len() - 1) as nat, |i: int| yt(YamlTokenKind::Dedent, b.len() as int, b.len() as int))
}

pub proof fn lemma_spaces_are_ws(b: Seq<u8>, i: int, end: int)
    requires
        0 <= i <= end <= b.len(),
        spaces_end(b, i, end) == end,
    ensures
        skip_ws(b, i, end) == end,
    decreases end - i,
{
    if i < end {
        lemma_spaces_are_ws(b, i + 1, end);
    }
}

pub proof fn lemma_dedent(stack: Seq<usize>, ind: int, at: int)
    requires
        wf_stack(stack),
        ind >= 0,
    ensures
        wf_stack(dedent(stack, ind, at).1),
        dedent(stack, ind, at).1.last() <= ind,
        1 <= dedent(stack, ind, at).1.len() <= stack.len(),
        dedent(stack, ind, at).1 == stack.subrange(0, dedent(stack, ind, at).1.len() as int),
    decreases stack.len(),
{
    if !(stack.len() == 0 || ind >= stack.last()) {
        if stack.len() == 1 {
            assert(false);
        }
        assert(wf_stack(stack.drop_last()));
        lemma_dedent(stack.drop_last(), ind, at);
        let s = dedent(stack.drop_last(), ind, at).1;
        assert(stack.drop_last().subrange(0, s.len() as int) =~= stack.subrange(0, s.len() as int));
    } else {
        assert(stack =~= stack.subrange(0, stack.len() as int));
    }
}

/// How far a token opens (+1 for an indent) or closes (-1 for a dedent) an
/// indentation level.
pub open spec fn level_step(k: YamlTokenKind) -> int {
    if k == YamlTokenKind::Indent {
        1
    } else if k == YamlTokenKind::Dedent {
        -1
    } else {
        0
    }
}

/// The number of indents minus the number of dedents in `s`.
pub open spec fn depth(s: Seq<YamlToken>) -> int
    decreases s.len(),
{
    if s.len() == 0 {
        0
    } else {
        depth(s.drop_last()) + level_step(s.last().kind)
    }
}

/// From a depth of `base`, no prefix of `s` closes more levels than are open.
pub open spec fn never_below(s: Seq<YamlToken>, base: int) -> bool {
    forall|p: int| 0 <= p <= s.len() ==> base + depth(#[trigger] s.take(p)) >= 0
}

/// Every dedent token of `s` has an empty span.
pub open spec fn dedents_empty(s: Seq<YamlToken>) -> bool {
    forall|i: int| 0 <= i < s.len() && (#[trigger] s[i]).kind == YamlTokenKind::Dedent ==> s[i].span.start
        == s[i].span.end
}

/// `s` holds neither indents nor dedents.
pub open spec fn flat(s: Seq<YamlToken>) -> bool {
    forall|i: int| 0 <= i < s.len() ==> level_step((#[trigger] s[i]).kind) == 0
}

proof fn lemma_depth_concat(a: Seq<YamlToken>, c: Seq<YamlToken>)
    ensures
        depth(a + c) == depth(a) + depth(c),
    decreases c.len(),
{
    if c.len() == 0 {
        assert(a + c =~= a);
    } else {
        lemma_depth_concat(a, c.drop_last());
        assert((a + c).drop_last() =~= a + c.drop_last());
    }
}

proof fn lemma_flat_depth(s: Seq<YamlToken>)
    requires
        flat(s),
    ensures
        depth(s) == 0,
        forall|p: int| 0 <= p <= s.len() ==> depth(#[trigger] s.take(p)) == 0,
    decreases s.len(),
{
    if s.len() > 0 {
        assert(flat(s.drop_last()));
        lemma_flat_depth(s.drop_last());
        assert(level_step(s[s.len() - 1].kind) == 0);
        assert forall|p: int| 0 <= p <= s.len() implies depth(#[trigger] s.take(p)) == 0 by {
            if p < s.len() {
                assert(s.take(p) =~= s.drop_last().take(p));
            } else {
                assert(s.take(p) =~= s);
            }
        }
    }
}

proof fn lemma_never_below_concat(a: Seq<YamlToken>, c: Seq<YamlToken>, base: int)
    requires
        never_below(a, base),
        never_below(c, base + depth(a)),
    ensures
        never_below(a + c, base),
{
    assert forall|p: int| 0 <= p <= (a + c).len() implies base + depth(#[trigger] (a + c).take(p)) >= 0 by {
        if p <= a.len() {
            assert((a + c).take(p) =~= a.take(p));
        } else {
            assert((a + c).take(p) =~= a + c.take(p - a.len()));
            lemma_depth_concat(a, c.take(p - a.len()));
            assert(a.take(a.len() as int) =~= a);
        }
    }
}

proof fn lemma_dedents_empty_concat(a: Seq<YamlToken>, c: Seq<YamlToken>)
    requires
        dedents_empty(a),
        dedents_empty(c),
    ensures
        dedents_empty(a + c),
{
    assert forall|i: int| 0 <= i < (a + c).len() && (#[trigger] (a + c)[i]).kind == YamlTokenKind::Dedent implies (a
        + c)[i].span.start == (a + c)[i].span.end by {
        if i < a.len() {
            assert((a + c)[i] == a[i]);
        } else {
            assert((a + c)[i] == c[i - a.len()]);
        }
    }
}

/// A flat run of tokens: depth 0 throughout, and no dedents.
proof fn lemma_flat_balanced(s: Seq<YamlToken>, base: int)
    requires
        flat(s),
        base >= 0,
    ensures
        depth(s) == 0,
        never_below(s, base),
        dedents_empty(s),
{
    lemma_flat_depth(s);
    assert forall|i: int| 0 <= i < s.len() && (#[trigger] s[i]).kind == YamlTokenKind::Dedent implies s[i].span.start
        == s[i].span.end by {
        assert(level_step(s[i].kind) == 0);
    }
}

proof fn lemma_content_flat(b: Seq<u8>, c0: int, ce: int)
    ensures
        flat(yl_content(b, c0, ce)),
{
}

proof fn lemma_newline_flat(b: Seq<u8>, o: int, e: int)
    ensures
        flat(newline_token(b, o, e)),
{
}

proof fn lemma_dedent_balance(stack: Seq<usize>, ind: int, at: int)
    requires
        wf_stack(stack),
        ind >= 0,
    ensures
        depth(dedent(stack, ind, at).0) == dedent(stack, ind, at).1.len() - stack.len(),
        never_below(dedent(stack, ind, at).0, stack.len() - 1),
        dedents_empty(dedent(stack, ind, at).0),
        forall|i: int| 0 <= i < dedent(stack, ind, at).0.len() ==> (#[trigger] dedent(stack, ind, at).0[i]).kind
            == YamlTokenKind::Dedent,
    decreases stack.len(),
{
    lemma_dedent(stack, ind, at);
    if !(stack.len() == 0 || ind >= stack.last()) {
        assert(wf_stack(stack.drop_last()));
        lemma_dedent_balance(stack.drop_last(), ind, at);
        let (t, st) = dedent(stack.drop_last(), ind, at);
        let d = seq![yt(YamlTokenKind::Dedent, at, at)];
        assert(depth(d) == -1) by {
            assert(d.drop_last() =~= Seq::<YamlToken>::empty());
            assert(depth(Seq::<YamlToken>::empty()) == 0);
            assert(d.last().kind == YamlTokenKind::Dedent);
        }
        lemma_depth_concat(d, t);
        assert(never_below(d, stack.len() - 1)) by {
            assert forall|p: int| 0 <= p <= d.len() implies stack.len() - 1 + depth(#[trigger] d.take(p)) >= 0 by {
                if p == 0 {
                    assert(d.take(p) =~= Seq::<YamlToken>::empty());
                } else {
                    assert(d.take(p) =~= d);
                }
            }
        }
        assert(dedents_empty(d));
        lemma_never_below_concat(d, t, stack.len() - 1);
        lemma_dedents_empty_concat(d, t);
        assert forall|i: int| 0 <= i < (d + t).len() implies (#[trigger] (d + t)[i]).kind == YamlTokenKind::Dedent by {
            if i > 0 {
                assert((d + t)[i] == t[i - 1]);
            }
        }
    }
}

proof fn lemma_line_balance(b: Seq<u8>, o: int, e: int, stack: Seq<usize>)
    requires
        wf_stack(stack),
        0 <= o < e <= b.len(),
        b.len() < usize::MAX,
    ensures
        wf_stack(yl_line(b, o, e, stack).1),
        depth(yl_line(b, o, e, stack).0) == yl_line(b, o, e, stack).1.len() - stack.len(),
        never_below(yl_line(b, o, e, stack).0, stack.len() - 1),
        dedents_empty(yl_line(b, o, e, stack).0),
{
    let ce = content_end(b, o, e);
    lemma_scans(b, o, ce);
    let nl = newline_token(b, o, e);
    lemma_newline_flat(b, o, e);
    if skip_ws(b, o, ce) == ce {
        lemma_flat_balanced(nl, stack.len() - 1);
    } else {
        let c0 = spaces_end(b, o, ce);
        let ind = c0 - o;
        let top = stack.last();
        let content = yl_content(b, c0, ce);
        lemma_content_flat(b, c0, ce);
        if ind > top {
            let head = seq![yt(YamlTokenKind::Indent, o + top, o + ind)];
            assert(depth(head) == 1) by {
                assert(head.drop_last() =~= Seq::<YamlToken>::empty());
                assert(depth(Seq::<YamlToken>::empty()) == 0);
                assert(head.last().kind == YamlTokenKind::Indent);
            }
            assert(never_below(head, stack.len() - 1)) by {
                assert forall|p: int| 0 <= p <= head.len() implies stack.len() - 1 + depth(#[trigger] head.take(p)) >= 0 by {
                    if p == 0 {
                        assert(head.take(p) =~= Seq::<YamlToken>::empty());
                    } else {
                        assert(head.take(p) =~= head);
                    }
                }
            }
            assert(dedents_empty(head));
            lemma_flat_balanced(content, stack.len() as int);
            lemma_flat_balanced(nl, stack.len() as int);
            lemma_depth_concat(head, content);
            lemma_depth_concat(head + content, nl);
            lemma_never_below_concat(head, content, stack.len() - 1);
            lemma_never_below_concat(head + content, nl, stack.len() - 1);
            lemma_dedents_empty_concat(head, content);
            lemma_dedents_empty_concat(head + content, nl);
            let s1 = stack.push(ind as usize);
            assert forall|i: int, j: int| 0 <= i < j < s1.len() implies #[trigger] s1[i] < #[trigger] s1[j] by {
                assert(s1[j] == if j < stack.len() { stack[j] } else { ind as usize });
                assert(s1[i] == stack[i]);
                if j == s1.len() - 1 && i < stack.len() - 1 {
                    assert(stack[i] < stack[stack.len() - 1]);
                }
            }
        } else if ind < top {
            lemma_dedent_balance(stack, ind, o + ind);
            lemma_dedent(stack, ind, o + ind);
            let (d, s) = dedent(stack, ind, o + ind);
            if ind != s.last() {
                let u = seq![yt(YamlTokenKind::Unknown, o, o + ind)];
                assert(flat(u));
                lemma_flat_balanced(u, s.len() - 1);
                lemma_depth_concat(d, u);
                lemma_never_below_concat(d, u, stack.len() - 1);
                lemma_dedents_empty_concat(d, u);
            } else {
                lemma_flat_balanced(content, s.len() - 1);
                lemma_flat_balanced(nl, s.len() - 1);
                lemma_depth_concat(d, content);
                lemma_depth_concat(d + content, nl);
                lemma_never_below_concat(d, content, stack.len() - 1);
                lemma_never_below_concat(d + content, nl, stack.len() - 1);
                lemma_dedents_empty_concat(d, content);
                lemma_dedents_empty_concat(d + content, nl);
            }
        } else {
            lemma_flat_balanced(content, stack.len() - 1);
            lemma_flat_balanced(nl, stack.len() - 1);
            lemma_depth_concat(content, nl);
            lemma_never_below_concat(content, nl, stack.len() - 1);
            lemma_dedents_empty_concat(content, nl);
        }
    }
}

proof fn lemma_from_balance(b: Seq<u8>, o: int, stack: Seq<usize>)
    requires
        wf_stack(stack),
        0 <= o <= b.len(),
        b.len() < usize::MAX,
    ensures
        wf_stack(yl_from(b, o, stack).1),
        depth(yl_from(b, o, stack).0) == yl_from(b, o, stack).1.len() - stack.len(),
        never_below(yl_from(b, o, stack).0, stack.len() - 1),
        dedents_empty(yl_from(b, o, stack).0),
    decreases b.len() - o,
{
    if o < b.len() {
        let e = line_end(b, o);
        lemma_line_end(b, o);
        lemma_line_balance(b, o, e, stack);
        let (t1, s1) = yl_line(b, o, e, stack);
        lemma_from_balance(b, e, s1);
        let (t2, s2) = yl_from(b, e, s1);
        lemma_depth_concat(t1, t2);
        lemma_never_below_concat(t1, t2, stack.len() - 1);
        lemma_dedents_empty_concat(t1, t2);
    } else {
        assert(never_below(Seq::<YamlToken>::empty(), stack.len() - 1)) by {
            assert forall|p: int| 0 <= p <= 0 implies stack.len() - 1 + depth(#[trigger] Seq::<YamlToken>::empty().take(p)) >= 0 by {
                assert(Seq::<YamlToken>::empty().take(p) =~= Seq::<YamlToken>::empty());
            }
        }
    }
}

proof fn lemma_closing_dedents(n: nat, at: int, base: int)
    requires
        base >= n,
    ensures
        depth(Seq::new(n, |i: int| yt(YamlTokenKind::Dedent, at, at))) == -(n as int),
        never_below(Seq::new(n, |i: int| yt(YamlTokenKind::Dedent, at, at)), base),
        dedents_empty(Seq::new(n, |i: int| yt(YamlTokenKind::Dedent, at, at))),
    decreases n,
{
    let s = Seq::new(n, |i: int| yt(YamlTokenKind::Dedent, at, at));
    if n > 0 {
        lemma_closing_dedents((n - 1) as nat, at, base);
        let s0 = Seq::new((n - 1) as nat, |i: int| yt(YamlTokenKind::Dedent, at, at));
        assert(s.drop_last() =~= s0);
        assert forall|p: int| 0 <= p <= s.len() implies base + depth(#[trigger] s.take(p)) >= 0 by {
            if p < s.len() {
                assert(s.take(p) =~= s0.take(p));
            } else {
                assert(s.take(p) =~= s);
            }
        }
    } else {
        assert forall|p: int| 0 <= p <= s.len() implies base + depth(#[trigger] s.take(p)) >= 0 by {
            assert(s.take(p) =~= Seq::<YamlToken>::empty());
        }
    }
}

/// The indents and dedents of a YAML text balance: there are as many of
/// each, no prefix of the tokens has more dedents than indents, and every
/// dedent has an empty span.
pub proof fn lemma_yaml_levels_balance(b: Seq<u8>)
    requires
        b.len() < usize::MAX,
    ensures
        depth(yaml_tokens(b)) == 0,
        never_below(yaml_tokens(b), 0),
        dedents_empty(yaml_tokens(b)),
{
    let st = seq![0usize];
    assert(wf_stack(st));
    lemma_from_balance(b, 0, st);
    let (t, s) = yl_from(b, 0, st);
    let n = (s.len() - 1) as nat;
    lemma_closing_dedents(n, b.len() as int, n as int);
    let tail = Seq::new(n, |i: int| yt(YamlTokenKind::Dedent, b.len() as int, b.len() as int));
    assert(yaml_tokens(b) == t + tail);
    lemma_depth_concat(t, tail);
    lemma_never_below_concat(t, tail, 0);
    lemma_dedents_empty_concat(t, tail);
}

/// Within `s`, every key token is followed by a colon and covers whole
/// characters of `b`.
pub open spec fn keys_local(s: Seq<YamlToken>, b: Seq<u8>) -> bool {
    forall|p: int|
        0 <= p < s.len() && (#[trigger] s[p]).kind == YamlTokenKind::Key ==> p + 1 < s.len() && s[p + 1].kind
            == YamlTokenKind::Colon && is_slice(b, s[p].span.start as int, s[p].span.end as int)
}

/// `s` holds no key token.
pub open spec fn keyless(s: Seq<YamlToken>) -> bool {
    forall|p: int| 0 <= p < s.len() ==> (#[trigger] s[p]).kind != YamlTokenKind::Key
}

proof fn lemma_keys_concat(a: Seq<YamlToken>, c: Seq<YamlToken>, b: Seq<u8>)
    requires
        keys_local(a, b),
        keys_local(c, b),
    ensures
        keys_local(a + c, b),
{
    assert forall|p: int| 0 <= p < (a + c).len() && (#[trigger] (a + c)[p]).kind == YamlTokenKind::Key implies p + 1 < (a
        + c).len() && (a + c)[p + 1].kind == YamlTokenKind::Colon && is_slice(
        b,
        (a + c)[p].span.start as int,
        (a + c)[p].span.end as int,
    ) by {
        if p < a.len() {
            assert((a + c)[p] == a[p]);
            assert((a + c)[p + 1] == a[p + 1]);
        } else {
            assert((a + c)[p] == c[p - a.len()]);
            assert((a + c)[p + 1] == c[p + 1 - a.len()]);
        }
    }
}

proof fn lemma_keyless_local(s: Seq<YamlToken>, b: Seq<u8>)
    requires
        keyless(s),
    ensures
        keys_local(s, b),
{
}

proof fn lemma_content_keys(b: Seq<u8>, c0: int, ce: int)
    requires
        valid_utf8(b),
        b.len() < usize::MAX,
        0 <= c0 < ce <= b.len(),
        is_char_boundary(b, c0),
        is_char_boundary(b, ce),
    ensures
        keys_local(yl_content(b, c0, ce), b),
{
    let t = yl_content(b, c0, ce);
    lemma_scans(b, c0, ce);
    if b[c0] == 35 {
        lemma_keyless_local(t, b);
    } else if (ce - c0 >= 2 && b[c0] == 45 && b[c0 + 1] == 32) || (ce - c0 == 1 && b[c0] == 45) {
        lemma_scans(b, c0 + 1, ce);
        let vs = skip_ws(b, c0 + 1, ce);
        if vs < ce {
            lemma_after_ascii_is_boundary(b, c0 + 1);
            lemma_skip_ws_boundary(b, c0 + 1, ce);
            lemma_first_occurrence(b, c0, ce, vs, ce);
            lemma_first_occurrence_matches(b, c0, ce, vs, ce);
            let q = first_occurrence(b, c0, ce, vs, ce).unwrap();
            lemma_first_byte(b, vs, ce, 58);
            match first_byte(b, vs, ce, 58) {
                Some(k) => {
                    lemma_trim_ws_end(b, vs, k);
                    lemma_lead_is_boundary(b, k);
                    lemma_trim_ws_end_boundary(b, vs, k);
                    let tr = trim_ws_end(b, vs, k);
                    let key_end = q + (tr - vs);
                    lemma_boundary_not_continuation(b, vs);
                    assert(b[q] == b.subrange(q, q + (ce - vs))[0]);
                    assert(b[vs] == b.subrange(vs, ce)[0]);
                    lemma_lead_is_boundary(b, q);
                    lemma_boundary_not_continuation(b, tr);
                    assert(b[key_end] == b.subrange(q, q + (ce - vs))[tr - vs]);
                    assert(b[tr] == b.subrange(vs, ce)[tr - vs]);
                    lemma_lead_is_boundary(b, key_end);
                    assert(is_slice(b, q, key_end));
                    assert(t[1].kind == YamlTokenKind::Key && t[2].kind == YamlTokenKind::Colon);
                    assert forall|p: int| 0 <= p < t.len() && (#[trigger] t[p]).kind == YamlTokenKind::Key implies p + 1
                        < t.len() && t[p + 1].kind == YamlTokenKind::Colon && is_slice(
                        b,
                        t[p].span.start as int,
                        t[p].span.end as int,
                    ) by {
                        assert(p == 1);
                    }
                },
                None => {
                    lemma_keyless_local(t, b);
                },
            }
        } else {
            lemma_keyless_local(t, b);
        }
    } else {
        lemma_first_byte(b, c0, ce, 58);
        match first_byte(b, c0, ce, 58) {
            Some(k) => {
                lemma_lead_is_boundary(b, k);
                assert forall|p: int| 0 <= p < t.len() && (#[trigger] t[p]).kind == YamlTokenKind::Key implies p + 1
                    < t.len() && t[p + 1].kind == YamlTokenKind::Colon && is_slice(
                    b,
                    t[p].span.start as int,
                    t[p].span.end as int,
                ) by {
                    assert(p == 0);
                }
            },
            None => {
                lemma_keyless_local(t, b);
            },
        }
    }
}

proof fn lemma_dedent_keyless(stack: Seq<usize>, ind: int, at: int)
    ensures
        keyless(dedent(stack, ind, at).0),
    decreases stack.len(),
{
    if !(stack.len() == 0 || ind >= stack.last()) {
        lemma_dedent_keyless(stack.drop_last(), ind, at);
        let t = dedent(stack.drop_last(), ind, at).0;
        let d = seq![yt(YamlTokenKind::Dedent, at, at)];
        assert forall|p: int| 0 <= p < (d + t).len() implies (#[trigger] (d + t)[p]).kind != YamlTokenKind::Key by {
            if p > 0 {
                assert((d + t)[p] == t[p - 1]);
            }
        }
    }
}

#[verifier::rlimit(60)]
#[verifier::spinoff_prover]
proof fn lemma_line_keys(b: Seq<u8>, o: int, e: int, stack: Seq<usize>)
    requires
        valid_utf8(b),
        b.len() < usize::MAX,
        0 <= o < e <= b.len(),
        e == line_end(b, o),
        is_char_boundary(b, o),
        wf_stack(stack),
    ensures
        keys_local(yl_line(b, o, e, stack).0, b),
{
    lemma_line_end(b, o);
    let ce = content_end(b, o, e);
    lemma_scans(b, o, ce);
    let nl = newline_token(b, o, e);
    lemma_keyless_local(nl, b);
    if skip_ws(b, o, ce) != ce {
        let c0 = spaces_end(b, o, ce);
        let ind = c0 - o;
        let top = stack.last();
        let content = yl_content(b, c0, ce);
        if c0 == ce {
            lemma_spaces_are_ws(b, o, ce);
        }
        lemma_spaces_end_after_space(b, o, ce);
        if c0 > o {
            lemma_after_ascii_is_boundary(b, c0);
        }
        if has_newline(b, o, e) {
            lemma_lead_is_boundary(b, ce);
        } else {
            is_char_boundary_start_end_of_seq(b);
        }
        lemma_content_keys(b, c0, ce);
        if ind > top {
            let head = seq![yt(YamlTokenKind::Indent, o + top, o + ind)];
            lemma_keyless_local(head, b);
            lemma_keys_concat(head, content, b);
            lemma_keys_concat(head + content, nl, b);
        } else if ind < top {
            lemma_dedent_keyless(stack, ind, o + ind);
            let (d, s) = dedent(stack, ind, o + ind);
            lemma_keyless_local(d, b);
            if ind != s.last() {
                let u = seq![yt(YamlTokenKind::Unknown, o, o + ind)];
                lemma_keyless_local(u, b);
                lemma_keys_concat(d, u, b);
            } else {
                lemma_keys_concat(d, content, b);
                lemma_keys_concat(d + content, nl, b);
            }
        } else {
            lemma_keys_concat(content, nl, b);
        }
    }
}

#[verifier::rlimit(60)]
#[verifier::spinoff_prover]
proof fn lemma_from_keys(b: Seq<u8>, o: int, stack: Seq<usize>)
    requires
        valid_utf8(b),
        b.len() < usize::MAX,
        0 <= o <= b.len(),
        o == 0 || o == b.len() || b[o - 1] == 10,
        wf_stack(stack),
    ensures
        keys_local(yl_from(b, o, stack).0, b),
    decreases b.len() - o,
{
    if o < b.len() {
        let e = line_end(b, o);
        lemma_line_end(b, o);
        lemma_first_byte(b, o, b.len() as int, 10);
        if o > 0 {
            lemma_after_ascii_is_boundary(b, o);
        }
        lemma_line_keys(b, o, e, stack);
        lemma_line_balance(b, o, e, stack);
        let (t1, s1) = yl_line(b, o, e, stack);
        lemma_from_keys(b, e, s1);
        lemma_keys_concat(t1, yl_from(b, e, s1).0, b);
    }
}

/// In the tokens of a UTF-8 text, every key is followed by a colon and
/// covers whole characters of the text.
pub proof fn lemma_yaml_keys_local(b: Seq<u8>)
    requires
        valid_utf8(b),
        b.len() < usize::MAX,
    ensures
        keys_local(yaml_tokens(b), b),
{
    let st = seq![0usize];
    assert(wf_stack(st));
    lemma_from_keys(b, 0, st);
    let (t, s) = yl_from(b, 0, st);
    let tail = Seq::new((s.len() - 1) as nat, |i: int| yt(YamlTokenKind::Dedent, b.len() as int, b.len() as int));
    lemma_keyless_local(tail, b);
    lemma_keys_concat(t, tail, b);
    assert(yaml_tokens(b) == t + tail);
}

pub struct YamlLexer;

impl YamlLexer {
    /// Splits `input` into tokens.
    pub fn tokenize(&self, input: &str) -> (tokens: Vec<YamlToken>)
        requires
            input.spec_bytes().len() < usize::MAX,
        ensures
            tokens@ == yaml_tokens(input.spec_bytes()),
    {
        let bytes = input.as_bytes();
        let ghost b = bytes@;
        let n = bytes.len();
        let mut tokens: Vec<YamlToken> = Vec::new();
        let mut indent_stack: Vec<usize> = Vec::new();
        indent_stack.push(0);
        let mut offset: usize = 0;
        let ghost whole = yl_from(b, 0, seq![0usize]);
        assert(indent_stack@ =~= seq![0usize]);
        while offset < n
            invariant
                b == bytes@,
                b == input.spec_bytes(),
                n == b.len(),
                n < usize::MAX,
                offset <= n,
                wf_stack(indent_stack@),
                whole == yl_from(b, 0, seq![0usize]),
                whole.0 == tokens@ + yl_from(b, offset as int, indent_stack@).0,
                whole.1 == yl_from(b, offset as int, indent_stack@).1,
            decreases n - offset,
        {
            proof {
                lemma_line_end(b, offset as int);
            }
            let end = match find_byte(bytes, offset, n, 10u8) {
                Some(k) => k + 1,
                None => n,
            };
            let ghost t0 = tokens@;
            let ghost s0 = indent_stack@;
            self.tokenize_line(bytes, offset, end, &mut indent_stack, &mut tokens);
            assert(yl_from(b, offset as int, s0).0 == yl_line(b, offset as int, end as int, s0).0
                + yl_from(b, end as int, indent_stack@).0);
            assert(t0 + (yl_line(b, offset as int, end as int, s0).0 + yl_from(b, end as int, indent_stack@).0)
                =~= tokens@ + yl_from(b, end as int, indent_stack@).0);
            offset = end;
        }
        let ghost before = tokens@;
        while indent_stack.len() > 1
            invariant
                wf_stack(indent_stack@),
                indent_stack@.len() <= whole.1.len(),
                whole.1.len() >= 1,
                tokens@ == before + Seq::new((whole.1.len() - indent_stack@.len()) as nat, |i: int| yt(YamlTokenKind::Dedent, n as int, n as int)),
            decreases indent_stack@.len(),
        {
            indent_stack.pop();
            tokens.push(YamlToken { kind: YamlTokenKind::Dedent, span: Span::new(n, n) });
            assert(wf_stack(indent_stack@));
            assert(tokens@ =~= before + Seq::new((whole.1.len() - indent_stack@.len()) as nat, |i: int| yt(YamlTokenKind::Dedent, n as int, n as int)));
        }
        assert(tokens@ =~= yaml_tokens(b));
        tokens
    }

    fn tokenize_line(
        &self,
        bytes: &[u8],
        offset: usize,
        end: usize,
        indent_stack: &mut Vec<usize>,
        tokens: &mut Vec<YamlToken>,
    )
        requires
            offset < end <= bytes@.len() < usize::MAX,
            end == line_end(bytes@, offset as int),
            wf_stack(old(indent_stack)@),
        ensures
            final(tokens)@ == old(tokens)@ + yl_line(bytes@, offset as int, end as int, old(indent_stack)@).0,
            final(indent_stack)@ == yl_line(bytes@, offset as int, end as int, old(indent_stack)@).1,
            wf_stack(final(indent_stack)@),
    {
        let ghost b = bytes@;
        let ghost s0 = indent_stack@;
        let has_nl = bytes[end - 1] == 10u8;
        let content_end = if has_nl { end - 1 } else { end };
        proof {
            lemma_scans(b, offset as int, content_end as int);
        }
        if skip_whitespace(bytes, offset, content_end) == content_end {
            self.push_newline(bytes, offset, end, tokens);
            return;
        }
        let c0 = skip_spaces(bytes, offset, content_end);
        if c0 == content_end {
            proof {
                lemma_spaces_are_ws(b, offset as int, content_end as int);
            }
        }
        let indentation = c0 - offset;
        let top = indent_stack[indent_stack.len() - 1];
        if indentation > top {
            indent_stack.push(indentation);
            tokens.push(YamlToken { kind: YamlTokenKind::Indent, span: Span::new(offset + top, offset + indentation) });
            assert(wf_stack(indent_stack@)) by {
                assert forall|i: int, j: int| 0 <= i < j < indent_stack@.len() implies #[trigger] indent_stack@[i] < #[trigger] indent_stack@[j] by {
                    if j == indent_stack@.len() - 1 && i < j - 1 {
                        assert(s0[i] < s0[s0.len() - 1]);
                    }
                }
            }
        } else if indentation < top {
            let ghost t0 = tokens@;
            proof {
                lemma_dedent(s0, indentation as int, (offset + indentation) as int);
            }
            while indentation < indent_stack[indent_stack.len() - 1]
                invariant
                    wf_stack(indent_stack@),
                    indentation >= 0,
                    offset + indentation <= end,
                    dedent(s0, indentation as int, (offset + indentation) as int).0 == (tokens@.subrange(t0.len() as int, tokens@.len() as int)) + dedent(indent_stack@, indentation as int, (offset + indentation) as int).0,
                    dedent(s0, indentation as int, (offset + indentation) as int).1 == dedent(indent_stack@, indentation as int, (offset + indentation) as int).1,
                    tokens@.len() >= t0.len(),
                    tokens@.subrange(0, t0.len() as int) == t0,
                decreases indent_stack@.len(),
            {
                if indent_stack.len() == 1 {
                    assert(false);
                }
                let ghost sb = indent_stack@;
                let ghost tb = tokens@;
                indent_stack.pop();
                tokens.push(YamlToken { kind: YamlTokenKind::Dedent, span: Span::new(offset + indentation, offset + indentation) });
                assert(indent_stack@ =~= sb.drop_last());
                assert(wf_stack(indent_stack@));
                assert(tokens@.subrange(t0.len() as int, tokens@.len() as int) =~= tb.subrange(t0.len() as int, tb.len() as int) + seq![yt(YamlTokenKind::Dedent, offset + indentation, offset + indentation)]);
                assert(tokens@.subrange(0, t0.len() as int) =~= tb.subrange(0, t0.len() as int));
                assert(dedent(sb, indentation as int, (offset + indentation) as int).0 =~= seq![yt(YamlTokenKind::Dedent, offset + indentation, offset + indentation)] + dedent(indent_stack@, indentation as int, (offset + indentation) as int).0);
            }
            assert(dedent(indent_stack@, indentation as int, (offset + indentation) as int).0 =~= seq![]);
            assert(tokens@ =~= t0 + dedent(s0, indentation as int, (offset + indentation) as int).0);
            if indentation != indent_stack[indent_stack.len() - 1] {
                tokens.push(YamlToken { kind: YamlTokenKind::Unknown, span: Span::new(offset, offset + indentation) });
                return;
            }
        }
        let ghost t1 = tokens@;
        self.tokenize_content(bytes, c0, content_end, tokens);
        self.push_newline(bytes, offset, end, tokens);
    }

    /// The tokens of the text `c0..ce` of a line after its indentation.
    fn tokenize_content(&self, bytes: &[u8], c0: usize, ce: usize, tokens: &mut Vec<YamlToken>)
        requires
            c0 < ce <= bytes@.len() < usize::MAX,
        ensures
            final(tokens)@ == old(tokens)@ + yl_content(bytes@, c0 as int, ce as int),
    {
        let ghost b = bytes@;
        if bytes[c0] == 35u8 {
            tokens.push(YamlToken { kind: YamlTokenKind::Comment, span: Span::new(c0, ce) });
            return;
        }
        if (ce - c0 >= 2 && bytes[c0] == 45u8 && bytes[c0 + 1] == 32u8) || (ce - c0 == 1 && bytes[c0] == 45u8) {
            tokens.push(YamlToken { kind: YamlTokenKind::Dash, span: Span::new(c0, c0 + 1) });
            let ghost t1 = tokens@;
            proof {
                lemma_scans(b, c0 + 1, ce as int);
            }
            let vs = skip_whitespace(bytes, c0 + 1, ce);
            if vs < ce {
                let value_start = find_slice(bytes, c0, ce, vs, ce);
                proof {
                    lemma_first_occurrence(b, c0 as int, ce as int, vs as int, ce as int);
                    lemma_first_byte(b, vs as int, ce as int, 58);
                }
                match find_byte(bytes, vs, ce, 58u8) {
                    Some(k) => {
                        proof {
                            lemma_trim_ws_end(b, vs as int, k as int);
                            lemma_scans(b, k + 1, ce as int);
                        }
                        let key_end = value_start + (trim_whitespace_end(bytes, vs, k) - vs);
                        tokens.push(YamlToken { kind: YamlTokenKind::Key, span: Span::new(value_start, key_end) });
                        tokens.push(YamlToken { kind: YamlTokenKind::Colon, span: Span::new(key_end, key_end + 1) });
                        let ss = skip_whitespace(bytes, k + 1, ce);
                        if ss < ce {
                            let scalar_start = key_end + 1 + (ss - (k + 1));
                            tokens.push(YamlToken { kind: YamlTokenKind::Scalar, span: Span::new(scalar_start, scalar_start + (ce - ss)) });
                        }
                    },
                    None => {
                        tokens.push(YamlToken { kind: YamlTokenKind::Scalar, span: Span::new(value_start, value_start + (ce - vs)) });
                    },
                }
            }
            assert(tokens@ =~= old(tokens)@ + yl_content(b, c0 as int, ce as int));
            return;
        }
        proof {
            lemma_first_byte(b, c0 as int, ce as int, 58);
        }
        match find_byte(bytes, c0, ce, 58u8) {
            Some(k) => {
                proof {
                    lemma_scans(b, k + 1, ce as int);
                }
                tokens.push(YamlToken { kind: YamlTokenKind::Key, span: Span::new(c0, k) });
                tokens.push(YamlToken { kind: YamlTokenKind::Colon, span: Span::new(k, k + 1) });
                let vs = skip_whitespace(bytes, k + 1, ce);
                if vs < ce {
                    tokens.push(YamlToken { kind: YamlTokenKind::Scalar, span: Span::new(vs, ce) });
                }
            },
            None => {
                tokens.push(YamlToken { kind: YamlTokenKind::Scalar, span: Span::new(c0, ce) });
            },
        }
        assert(tokens@ =~= old(tokens)@ + yl_content(b, c0 as int, ce as int));
    }

    fn push_newline(&self, bytes: &[u8], offset: usize, end: usize, tokens: &mut Vec<YamlToken>)
        requires
            offset < end <= bytes@.len(),
        ensures
            final(tokens)@ == old(tokens)@ + newline_token(bytes@, offset as int, end as int),
    {
        if bytes[end - 1] == 10u8 {
            tokens.push(YamlToken { kind: YamlTokenKind::Newline, span: Span::new(end - 1, end) });
        } else {
            assert(tokens@ =~= old(tokens)@ + newline_token(bytes@, offset as int, end as int));
        }
    }
}

} // verus!

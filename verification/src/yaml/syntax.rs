//! Builds a syntax tree from YAML tokens.
use vstd::prelude::*;
use vstd::string::{StringExecFns, StringSliceAdditionalSpecFns};
use crate::span::Span;
use crate::syntax::{leaf, lemma_node_view, node_view, nodes_view, opt_string_view, SpecNode, SyntaxKind, SyntaxNode};
use crate::text::{is_slice, slice_str, text_of};
use vstd::utf8::valid_utf8;
use crate::yaml::lexer::{lemma_yaml_keys_local, yaml_tokens, YamlToken, YamlTokenKind};

verus! {

broadcast use {vstd::seq::group_seq_axioms, lemma_node_view};

/// The position of the first token at or after `pos` that is not a newline.
pub open spec fn skip_nl(toks: Seq<YamlToken>, pos: int) -> int
    decreases toks.len() - pos,
{
    if 0 <= pos < toks.len() && toks[pos].kind == YamlTokenKind::Newline {
        skip_nl(toks, pos + 1)
    } else {
        pos
    }
}

pub proof fn lemma_skip_nl(toks: Seq<YamlToken>, pos: int)
    ensures
        pos <= skip_nl(toks, pos),
        0 <= pos <= toks.len() ==> skip_nl(toks, pos) <= toks.len(),
        !(0 <= skip_nl(toks, pos) < toks.len() && toks[skip_nl(toks, pos)].kind == YamlTokenKind::Newline),
    decreases toks.len() - pos,
{
    if 0 <= pos < toks.len() && toks[pos].kind == YamlTokenKind::Newline {
        lemma_skip_nl(toks, pos + 1);
    }
}

/// The token at `pos` exists and has kind `kind`.
pub open spec fn is_at(toks: Seq<YamlToken>, pos: int, kind: YamlTokenKind) -> bool {
    0 <= pos < toks.len() && toks[pos].kind == kind
}

/// Where a node with children `cs` ends: where its last child ends, or at
/// `default` without children.
pub open spec fn end_of(cs: Seq<SpecNode>, default: usize) -> usize {
    if cs.len() > 0 {
        cs.last().span.end
    } else {
        default
    }
}

/// Puts `n` in front of the nodes of a result; `Err(())` marks a parse that
/// would panic. The parsing functions below also give `Err(())` where a
/// position would not move forward, which keeps their recursion well
/// founded; `lemma_yaml_progress` shows that this never happens.
pub open spec fn ycons(n: SpecNode, r: Result<(Seq<SpecNode>, int), ()>) -> Result<(Seq<SpecNode>, int), ()> {
    match r {
        Ok((cs, q)) => Ok((seq![n] + cs, q)),
        Err(()) => Err(()),
    }
}

/// The mapping entry at `pos`, if a key stands there, and the position after
/// it. A key followed by a scalar is a string; followed by an indented
/// block it is an array when the block starts with a dash, else an object;
/// otherwise it is null. A key without a colon gives no entry. `Err(())`
/// marks a parse that would panic: a key whose span cannot be sliced out of
/// the source, or a token read past the end.
pub open spec fn yp_entry(toks: Seq<YamlToken>, b: Seq<u8>, pos: int) -> Result<(Option<SpecNode>, int), ()>
    decreases toks.len() - pos, 0int,
    via yp_decreases_entry
{
    if !is_at(toks, pos, YamlTokenKind::Key) {
        Ok((None, pos))
    } else {
        let ks = toks[pos].span;
        if !is_slice(b, ks.start as int, ks.end as int) {
            Err(())
        } else {
            let name = text_of(b, ks.start as int, ks.end as int);
            let p1 = pos + 1;
            if !is_at(toks, p1, YamlTokenKind::Colon) {
                Ok((None, p1))
            } else {
                let p2 = p1 + 1;
                if is_at(toks, p2, YamlTokenKind::Scalar) {
                    Ok(
                        (
                            Some(leaf(SyntaxKind::String, Span { start: ks.start, end: toks[p2].span.end }, Some(name))),
                            p2 + 1,
                        ),
                    )
                } else {
                    let p3 = if is_at(toks, p2, YamlTokenKind::Newline) {
                        p2 + 1
                    } else {
                        p2
                    };
                    if is_at(toks, p3, YamlTokenKind::Indent) {
                        let indent_end = toks[p3].span.end;
                        let p4 = p3 + 1;
                        if is_at(toks, p4, YamlTokenKind::Dash) {
                            match yp_seq(toks, b, p4) {
                                Err(()) => Err(()),
                                Ok((cs, q)) => {
                                    let q1 = if is_at(toks, q, YamlTokenKind::Dedent) {
                                        q + 1
                                    } else {
                                        q
                                    };
                                    Ok(
                                        (
                                            Some(
                                                SpecNode {
                                                    kind: SyntaxKind::Array,
                                                    span: Span { start: ks.start, end: end_of(cs, indent_end) },
                                                    name: Some(name),
                                                    children: cs,
                                                },
                                            ),
                                            q1,
                                        ),
                                    )
                                },
                            }
                        } else {
                            match yp_block(toks, b, p4) {
                                Err(()) => Err(()),
                                Ok((cs, q)) => Ok(
                                    (
                                        Some(
                                            SpecNode {
                                                kind: SyntaxKind::Object,
                                                span: Span { start: ks.start, end: end_of(cs, indent_end) },
                                                name: Some(name),
                                                children: cs,
                                            },
                                        ),
                                        q,
                                    ),
                                ),
                            }
                        }
                    } else {
                        Ok((Some(leaf(SyntaxKind::Null, ks, Some(name))), p3))
                    }
                }
            }
        }
    }
}

/// The items of a sequence from `pos` on, and the position where they stop:
/// after blank lines, each dash gives an object (a mapping entry on the dash's
/// line, with an indented block of further entries), a string (a scalar) or
/// a null.
pub open spec fn yp_seq(toks: Seq<YamlToken>, b: Seq<u8>, pos: int) -> Result<(Seq<SpecNode>, int), ()>
    decreases toks.len() - pos, 3int,
    via yp_decreases_seq
{
    if pos < 0 || pos >= toks.len() {
        Ok((seq![], pos))
    } else {
        let p = skip_nl(toks, pos);
        if !is_at(toks, p, YamlTokenKind::Dash) {
            Ok((seq![], p))
        } else {
            let dash = toks[p].span;
            let p1 = p + 1;
            if is_at(toks, p1, YamlTokenKind::Key) {
                match yp_entry(toks, b, p1) {
                    Err(()) => Err(()),
                    Ok((None, q)) => if q <= pos || q > toks.len() {
                        Err(())
                    } else {
                        yp_seq(toks, b, q)
                    },
                    Ok((Some(first), q)) => {
                        let q1 = skip_nl(toks, q);
                        if q <= pos || q > toks.len() {
                            Err(())
                        } else if is_at(toks, q1, YamlTokenKind::Indent) {
                            match yp_block(toks, b, q1 + 1) {
                                Err(()) => Err(()),
                                Ok((rest, q2)) => {
                                    let oc = seq![first] + rest;
                                    let item = SpecNode {
                                        kind: SyntaxKind::Object,
                                        span: Span { start: dash.start, end: end_of(oc, dash.end) },
                                        name: None,
                                        children: oc,
                                    };
                                    if q2 <= pos || q2 > toks.len() {
                                        Err(())
                                    } else {
                                        ycons(item, yp_seq(toks, b, q2))
                                    }
                                },
                            }
                        } else {
                            let oc = seq![first];
                            let item = SpecNode {
                                kind: SyntaxKind::Object,
                                span: Span { start: dash.start, end: end_of(oc, dash.end) },
                                name: None,
                                children: oc,
                            };
                            ycons(item, yp_seq(toks, b, q1))
                        }
                    },
                }
            } else if is_at(toks, p1, YamlTokenKind::Scalar) {
                ycons(
                    leaf(SyntaxKind::String, Span { start: dash.start, end: toks[p1].span.end }, None),
                    yp_seq(toks, b, p1 + 1),
                )
            } else {
                ycons(leaf(SyntaxKind::Null, dash, None), yp_seq(toks, b, p1))
            }
        }
    }
}

/// The entries of an indented block from `pos` on, and the position after the
/// dedent that closes it: blank lines are skipped first.
pub open spec fn yp_block(toks: Seq<YamlToken>, b: Seq<u8>, pos: int) -> Result<(Seq<SpecNode>, int), ()>
    decreases toks.len() - pos, 2int,
    via yp_decreases_block
{
    yp_block_at(toks, b, skip_nl(toks, pos))
}

/// The entries of an indented block from `p` on, where no newline stands at
/// `p`: a dedent closes the block; otherwise a mapping entry is parsed, or
/// the token skipped.
pub open spec fn yp_block_at(toks: Seq<YamlToken>, b: Seq<u8>, p: int) -> Result<(Seq<SpecNode>, int), ()>
    decreases toks.len() - p, 1int,
{
    if p < 0 || p >= toks.len() {
        Ok((seq![], p))
    } else if toks[p].kind == YamlTokenKind::Dedent {
        Ok((seq![], p + 1))
    } else {
        match yp_entry(toks, b, p) {
            Err(()) => Err(()),
            Ok((Some(n), q)) => if q <= p || q > toks.len() {
                Err(())
            } else {
                ycons(n, yp_block(toks, b, q))
            },
            Ok((None, q)) => if q >= toks.len() || q < p {
                Err(())
            } else {
                yp_block(toks, b, q + 1)
            },
        }
    }
}

/// The entries at the top level from `pos` on: blank lines are skipped first.
pub open spec fn yp_top(toks: Seq<YamlToken>, b: Seq<u8>, pos: int) -> Result<Seq<SpecNode>, ()>
    decreases toks.len() - pos, 1int,
    via yp_decreases_top
{
    yp_top_at(toks, b, skip_nl(toks, pos))
}

/// The entries at the top level from `p` on, where no newline stands at `p`:
/// a mapping entry is parsed, or the token skipped.
pub open spec fn yp_top_at(toks: Seq<YamlToken>, b: Seq<u8>, p: int) -> Result<Seq<SpecNode>, ()>
    decreases toks.len() - p, 0int,
{
    if p < 0 || p >= toks.len() {
        Ok(seq![])
    } else {
        match yp_entry(toks, b, p) {
            Err(()) => Err(()),
            Ok((Some(n), q)) => if q <= p || q > toks.len() {
                Err(())
            } else {
                match yp_top(toks, b, q) {
                    Ok(cs) => Ok(seq![n] + cs),
                    Err(()) => Err(()),
                }
            },
            Ok((None, q)) => if q >= toks.len() || q < p {
                Err(())
            } else {
                yp_top(toks, b, q + 1)
            },
        }
    }
}

#[via_fn]
proof fn yp_decreases_entry(toks: Seq<YamlToken>, b: Seq<u8>, pos: int) {
}

#[via_fn]
proof fn yp_decreases_seq(toks: Seq<YamlToken>, b: Seq<u8>, pos: int) {
    assert forall|q: int| #[trigger] skip_nl(toks, q) >= q && (0 <= q <= toks.len() ==> skip_nl(toks, q) <= toks.len()) by {
        lemma_skip_nl(toks, q);
    }
}

#[via_fn]
proof fn yp_decreases_block(toks: Seq<YamlToken>, b: Seq<u8>, pos: int) {
    lemma_skip_nl(toks, pos);
}

#[via_fn]
proof fn yp_decreases_top(toks: Seq<YamlToken>, b: Seq<u8>, pos: int) {
    lemma_skip_nl(toks, pos);
}

proof fn lemma_yp_entry_progress(toks: Seq<YamlToken>, b: Seq<u8>, pos: int)
    requires
        0 <= pos <= toks.len(),
    ensures
        yp_entry(toks, b, pos) matches Ok((o, q)) ==> pos <= q <= toks.len() && (o is Some ==> pos < q),
    decreases toks.len() - pos, 0int,
{
    if is_at(toks, pos, YamlTokenKind::Key) && is_at(toks, pos + 1, YamlTokenKind::Colon) && !is_at(
        toks,
        pos + 2,
        YamlTokenKind::Scalar,
    ) {
        let p2 = pos + 2;
        let p3 = if is_at(toks, p2, YamlTokenKind::Newline) {
            p2 + 1
        } else {
            p2
        };
        if is_at(toks, p3, YamlTokenKind::Indent) {
            if is_at(toks, p3 + 1, YamlTokenKind::Dash) {
                lemma_yp_seq_progress(toks, b, p3 + 1);
            } else {
                lemma_yp_block_progress(toks, b, p3 + 1);
            }
        }
    }
}

proof fn lemma_yp_seq_progress(toks: Seq<YamlToken>, b: Seq<u8>, pos: int)
    requires
        0 <= pos <= toks.len(),
    ensures
        yp_seq(toks, b, pos) matches Ok((cs, q)) ==> pos <= q <= toks.len(),
    decreases toks.len() - pos, 3int,
{
    if pos < toks.len() {
        lemma_skip_nl(toks, pos);
        let p = skip_nl(toks, pos);
        if is_at(toks, p, YamlTokenKind::Dash) {
            let p1 = p + 1;
            if is_at(toks, p1, YamlTokenKind::Key) {
                lemma_yp_entry_progress(toks, b, p1);
                match yp_entry(toks, b, p1) {
                    Ok((None, q)) => {
                        if !(q <= pos || q > toks.len()) {
                            lemma_yp_seq_progress(toks, b, q);
                        }
                    },
                    Ok((Some(first), q)) => {
                        lemma_skip_nl(toks, q);
                        let q1 = skip_nl(toks, q);
                        if !(q <= pos || q > toks.len()) {
                            if is_at(toks, q1, YamlTokenKind::Indent) {
                                lemma_yp_block_progress(toks, b, q1 + 1);
                                if let Ok((rest, q2)) = yp_block(toks, b, q1 + 1) {
                                    if !(q2 <= pos || q2 > toks.len()) {
                                        lemma_yp_seq_progress(toks, b, q2);
                                    }
                                }
                            } else {
                                lemma_yp_seq_progress(toks, b, q1);
                            }
                        }
                    },
                    Err(()) => {},
                }
            } else if is_at(toks, p1, YamlTokenKind::Scalar) {
                lemma_yp_seq_progress(toks, b, p1 + 1);
            } else {
                lemma_yp_seq_progress(toks, b, p1);
            }
        }
    }
}

proof fn lemma_yp_block_progress(toks: Seq<YamlToken>, b: Seq<u8>, pos: int)
    requires
        0 <= pos <= toks.len(),
    ensures
        yp_block(toks, b, pos) matches Ok((cs, q)) ==> pos <= q <= toks.len(),
    decreases toks.len() - pos, 2int,
{
    lemma_skip_nl(toks, pos);
    lemma_yp_block_at_progress(toks, b, skip_nl(toks, pos));
}

proof fn lemma_yp_block_at_progress(toks: Seq<YamlToken>, b: Seq<u8>, p: int)
    requires
        0 <= p <= toks.len(),
    ensures
        yp_block_at(toks, b, p) matches Ok((cs, q)) ==> p <= q <= toks.len(),
    decreases toks.len() - p, 1int,
{
    if p < toks.len() && toks[p].kind != YamlTokenKind::Dedent {
        lemma_yp_entry_progress(toks, b, p);
        match yp_entry(toks, b, p) {
            Ok((Some(n), q)) => {
                if !(q <= p || q > toks.len()) {
                    lemma_yp_block_progress(toks, b, q);
                }
            },
            Ok((None, q)) => {
                if !(q >= toks.len() || q < p) {
                    lemma_yp_block_progress(toks, b, q + 1);
                }
            },
            Err(()) => {},
        }
    }
}

/// Parsing a YAML entry never moves the parser back or past the last token,
/// and moves it forward when it yields a node; sequences and blocks end at or
/// after where they start. So no parsing result is an `Err` for want of
/// progress.
pub proof fn lemma_yaml_progress(toks: Seq<YamlToken>, b: Seq<u8>, pos: int)
    requires
        0 <= pos <= toks.len(),
    ensures
        yp_entry(toks, b, pos) matches Ok((o, q)) ==> pos <= q <= toks.len() && (o is Some ==> pos < q),
        yp_seq(toks, b, pos) matches Ok((cs, q)) ==> pos <= q <= toks.len(),
        yp_block(toks, b, pos) matches Ok((cs, q)) ==> pos <= q <= toks.len(),
{
    lemma_yp_entry_progress(toks, b, pos);
    lemma_yp_seq_progress(toks, b, pos);
    lemma_yp_block_progress(toks, b, pos);
}

/// Every key token is followed by a colon and covers whole characters of
/// `b`.
pub open spec fn keys_well_placed(toks: Seq<YamlToken>, b: Seq<u8>) -> bool {
    forall|p: int|
        0 <= p < toks.len() && (#[trigger] toks[p]).kind == YamlTokenKind::Key ==> is_at(toks, p + 1, YamlTokenKind::Colon)
            && is_slice(b, toks[p].span.start as int, toks[p].span.end as int)
}

proof fn lemma_yp_entry_safe(toks: Seq<YamlToken>, b: Seq<u8>, pos: int)
    requires
        0 <= pos <= toks.len(),
        keys_well_placed(toks, b),
    ensures
        yp_entry(toks, b, pos) is Ok,
        yp_entry(toks, b, pos) matches Ok((None, q)) ==> q == pos,
    decreases toks.len() - pos, 0int,
{
    if is_at(toks, pos, YamlTokenKind::Key) {
        let p2 = pos + 2;
        let p3 = if is_at(toks, p2, YamlTokenKind::Newline) { p2 + 1 } else { p2 };
        if !is_at(toks, p2, YamlTokenKind::Scalar) && is_at(toks, p3, YamlTokenKind::Indent) {
            if is_at(toks, p3 + 1, YamlTokenKind::Dash) {
                lemma_yp_seq_safe(toks, b, p3 + 1);
            } else {
                lemma_yp_block_safe(toks, b, p3 + 1);
            }
        }
    }
}

proof fn lemma_yp_seq_safe(toks: Seq<YamlToken>, b: Seq<u8>, pos: int)
    requires
        0 <= pos <= toks.len(),
        keys_well_placed(toks, b),
    ensures
        yp_seq(toks, b, pos) is Ok,
    decreases toks.len() - pos, 3int,
{
    if pos < toks.len() {
        lemma_skip_nl(toks, pos);
        let p = skip_nl(toks, pos);
        if is_at(toks, p, YamlTokenKind::Dash) {
            let p1 = p + 1;
            if is_at(toks, p1, YamlTokenKind::Key) {
                lemma_yp_entry_safe(toks, b, p1);
                lemma_yp_entry_progress(toks, b, p1);
                match yp_entry(toks, b, p1) {
                    Ok((None, q)) => {
                        lemma_yp_seq_safe(toks, b, q);
                    },
                    Ok((Some(first), q)) => {
                        lemma_skip_nl(toks, q);
                        let q1 = skip_nl(toks, q);
                        if is_at(toks, q1, YamlTokenKind::Indent) {
                            lemma_yp_block_safe(toks, b, q1 + 1);
                            lemma_yp_block_progress(toks, b, q1 + 1);
                            if let Ok((rest, q2)) = yp_block(toks, b, q1 + 1) {
                                lemma_yp_seq_safe(toks, b, q2);
                            }
                        } else {
                            lemma_yp_seq_safe(toks, b, q1);
                        }
                    },
                    Err(()) => {},
                }
            } else if is_at(toks, p1, YamlTokenKind::Scalar) {
                lemma_yp_seq_safe(toks, b, p1 + 1);
            } else {
                lemma_yp_seq_safe(toks, b, p1);
            }
        }
    }
}

proof fn lemma_yp_block_safe(toks: Seq<YamlToken>, b: Seq<u8>, pos: int)
    requires
        0 <= pos <= toks.len(),
        keys_well_placed(toks, b),
    ensures
        yp_block(toks, b, pos) is Ok,
    decreases toks.len() - pos, 2int,
{
    lemma_skip_nl(toks, pos);
    lemma_yp_block_at_safe(toks, b, skip_nl(toks, pos));
}

proof fn lemma_yp_block_at_safe(toks: Seq<YamlToken>, b: Seq<u8>, p: int)
    requires
        0 <= p <= toks.len(),
        keys_well_placed(toks, b),
    ensures
        yp_block_at(toks, b, p) is Ok,
    decreases toks.len() - p, 1int,
{
    if p < toks.len() && toks[p].kind != YamlTokenKind::Dedent {
        lemma_yp_entry_safe(toks, b, p);
        lemma_yp_entry_progress(toks, b, p);
        match yp_entry(toks, b, p) {
            Ok((Some(n), q)) => {
                lemma_yp_block_safe(toks, b, q);
            },
            Ok((None, q)) => {
                lemma_yp_block_safe(toks, b, q + 1);
            },
            Err(()) => {},
        }
    }
}

proof fn lemma_yp_top_safe(toks: Seq<YamlToken>, b: Seq<u8>, pos: int)
    requires
        0 <= pos <= toks.len(),
        keys_well_placed(toks, b),
    ensures
        yp_top(toks, b, pos) is Ok,
    decreases toks.len() - pos,
{
    lemma_skip_nl(toks, pos);
    let p = skip_nl(toks, pos);
    if p < toks.len() {
        lemma_yp_entry_safe(toks, b, p);
        lemma_yp_entry_progress(toks, b, p);
        match yp_entry(toks, b, p) {
            Ok((Some(n), q)) => {
                lemma_yp_top_safe(toks, b, q);
            },
            Ok((None, q)) => {
                lemma_yp_top_safe(toks, b, q + 1);
            },
            Err(()) => {},
        }
    }
}

/// Parsing tokens whose keys are each followed by a colon and cover whole
/// characters never panics.
pub proof fn lemma_yaml_parse_safe(toks: Seq<YamlToken>, b: Seq<u8>)
    requires
        keys_well_placed(toks, b),
    ensures
        yaml_parse(toks, b) is Ok,
{
    lemma_yp_top_safe(toks, b, 0);
}

/// The parser never panics on the tokens of a UTF-8 text: every key token
/// is followed by a colon and covers whole characters, so parsing succeeds.
pub proof fn lemma_yaml_parse_total(b: Seq<u8>)
    requires
        valid_utf8(b),
        b.len() < usize::MAX,
    ensures
        keys_well_placed(yaml_tokens(b), b),
        yaml_parse(yaml_tokens(b), b) is Ok,
{
    lemma_yaml_keys_local(b);
    let toks = yaml_tokens(b);
    assert forall|p: int| 0 <= p < toks.len() && (#[trigger] toks[p]).kind == YamlTokenKind::Key implies is_at(
        toks,
        p + 1,
        YamlTokenKind::Colon,
    ) && is_slice(b, toks[p].span.start as int, toks[p].span.end as int) by {}
    lemma_yaml_parse_safe(toks, b);
}

/// The shape of a YAML tree over the text `b`: the children of an object are
/// named entries, the items of an array are unnamed, nodes other than
/// objects and arrays have no children, and the text at a named node's start
/// begins with its name.
pub open spec fn yaml_shaped(n: SpecNode, b: Seq<u8>) -> bool
    decreases n,
{
    &&& (n.kind == SyntaxKind::Object ==> forall|i: int| 0 <= i < n.children.len() ==> (#[trigger] n.children[i]).name is Some)
    &&& (n.kind == SyntaxKind::Array ==> forall|i: int| 0 <= i < n.children.len() ==> (#[trigger] n.children[i]).name is None)
    &&& (n.kind != SyntaxKind::Object && n.kind != SyntaxKind::Array ==> n.children.len() == 0)
    &&& (n.name matches Some(k) ==> exists|e: int|
        is_slice(b, n.span.start as int, e) && #[trigger] text_of(b, n.span.start as int, e) == k)
    &&& forall|i: int| 0 <= i < n.children.len() ==> yaml_shaped(#[trigger] n.children[i], b)
}

/// Every node of `cs` has the YAML shape, and is named exactly when `named`.
pub open spec fn all_shaped(cs: Seq<SpecNode>, b: Seq<u8>, named: bool) -> bool {
    forall|i: int| 0 <= i < cs.len() ==> yaml_shaped(#[trigger] cs[i], b) && (cs[i].name is Some) == named
}

proof fn lemma_shaped_cons(n: SpecNode, cs: Seq<SpecNode>, b: Seq<u8>, named: bool)
    requires
        yaml_shaped(n, b),
        (n.name is Some) == named,
        all_shaped(cs, b, named),
    ensures
        all_shaped(seq![n] + cs, b, named),
{
    let all = seq![n] + cs;
    assert forall|i: int| 0 < i < all.len() implies #[trigger] all[i] == cs[i - 1] by {}
}

proof fn lemma_yp_entry_shape(toks: Seq<YamlToken>, b: Seq<u8>, pos: int)
    requires
        0 <= pos <= toks.len(),
    ensures
        yp_entry(toks, b, pos) matches Ok((Some(n), q)) ==> yaml_shaped(n, b) && n.name is Some,
    decreases toks.len() - pos, 0int,
{
    if is_at(toks, pos, YamlTokenKind::Key) {
        let ks = toks[pos].span;
        if is_slice(b, ks.start as int, ks.end as int) && is_at(toks, pos + 1, YamlTokenKind::Colon) {
            let name = text_of(b, ks.start as int, ks.end as int);
            let p2 = pos + 2;
            let p3 = if is_at(toks, p2, YamlTokenKind::Newline) { p2 + 1 } else { p2 };
            if !is_at(toks, p2, YamlTokenKind::Scalar) && is_at(toks, p3, YamlTokenKind::Indent) {
                if is_at(toks, p3 + 1, YamlTokenKind::Dash) {
                    lemma_yp_seq_shape(toks, b, p3 + 1);
                } else {
                    lemma_yp_block_shape(toks, b, p3 + 1);
                }
            }
            if let Ok((Some(n), q)) = yp_entry(toks, b, pos) {
                assert(n.span.start == ks.start && n.name == Some(name));
                assert(is_slice(b, n.span.start as int, ks.end as int) && text_of(b, n.span.start as int, ks.end as int) == name);
            }
        }
    }
}

proof fn lemma_yp_seq_shape(toks: Seq<YamlToken>, b: Seq<u8>, pos: int)
    requires
        0 <= pos <= toks.len(),
    ensures
        yp_seq(toks, b, pos) matches Ok((cs, q)) ==> all_shaped(cs, b, false),
    decreases toks.len() - pos, 3int,
{
    if pos < toks.len() {
        lemma_skip_nl(toks, pos);
        let p = skip_nl(toks, pos);
        if is_at(toks, p, YamlTokenKind::Dash) {
            let dash = toks[p].span;
            let p1 = p + 1;
            if is_at(toks, p1, YamlTokenKind::Key) {
                lemma_yp_entry_shape(toks, b, p1);
                match yp_entry(toks, b, p1) {
                    Ok((None, q)) => {
                        if !(q <= pos || q > toks.len()) {
                            lemma_yp_seq_shape(toks, b, q);
                        }
                    },
                    Ok((Some(first), q)) => {
                        lemma_skip_nl(toks, q);
                        let q1 = skip_nl(toks, q);
                        if !(q <= pos || q > toks.len()) {
                            if is_at(toks, q1, YamlTokenKind::Indent) {
                                lemma_yp_block_shape(toks, b, q1 + 1);
                                if let Ok((rest, q2)) = yp_block(toks, b, q1 + 1) {
                                    if !(q2 <= pos || q2 > toks.len()) {
                                        lemma_yp_seq_shape(toks, b, q2);
                                        lemma_shaped_cons(first, rest, b, true);
                                        let oc = seq![first] + rest;
                                        let item = SpecNode {
                                            kind: SyntaxKind::Object,
                                            span: Span { start: dash.start, end: end_of(oc, dash.end) },
                                            name: None,
                                            children: oc,
                                        };
                                        assert(yaml_shaped(item, b));
                                        if let Ok((more, r)) = yp_seq(toks, b, q2) {
                                            lemma_shaped_cons(item, more, b, false);
                                        }
                                    }
                                }
                            } else {
                                lemma_yp_seq_shape(toks, b, q1);
                                let oc = seq![first];
                                let item = SpecNode {
                                    kind: SyntaxKind::Object,
                                    span: Span { start: dash.start, end: end_of(oc, dash.end) },
                                    name: None,
                                    children: oc,
                                };
                                assert(yaml_shaped(item, b));
                                if let Ok((more, r)) = yp_seq(toks, b, q1) {
                                    lemma_shaped_cons(item, more, b, false);
                                }
                            }
                        }
                    },
                    Err(()) => {},
                }
            } else if is_at(toks, p1, YamlTokenKind::Scalar) {
                lemma_yp_seq_shape(toks, b, p1 + 1);
                let item = leaf(SyntaxKind::String, Span { start: dash.start, end: toks[p1].span.end }, None);
                assert(yaml_shaped(item, b));
                if let Ok((more, r)) = yp_seq(toks, b, p1 + 1) {
                    lemma_shaped_cons(item, more, b, false);
                }
            } else {
                lemma_yp_seq_shape(toks, b, p1);
                let item = leaf(SyntaxKind::Null, dash, None);
                assert(yaml_shaped(item, b));
                if let Ok((more, r)) = yp_seq(toks, b, p1) {
                    lemma_shaped_cons(item, more, b, false);
                }
            }
        }
    }
}

proof fn lemma_yp_block_shape(toks: Seq<YamlToken>, b: Seq<u8>, pos: int)
    requires
        0 <= pos <= toks.len(),
    ensures
        yp_block(toks, b, pos) matches Ok((cs, q)) ==> all_shaped(cs, b, true),
    decreases toks.len() - pos, 2int,
{
    lemma_skip_nl(toks, pos);
    lemma_yp_block_at_shape(toks, b, skip_nl(toks, pos));
}

proof fn lemma_yp_block_at_shape(toks: Seq<YamlToken>, b: Seq<u8>, p: int)
    requires
        0 <= p <= toks.len(),
    ensures
        yp_block_at(toks, b, p) matches Ok((cs, q)) ==> all_shaped(cs, b, true),
    decreases toks.len() - p, 1int,
{
    if p < toks.len() && toks[p].kind != YamlTokenKind::Dedent {
        lemma_yp_entry_shape(toks, b, p);
        match yp_entry(toks, b, p) {
            Ok((Some(n), q)) => {
                if !(q <= p || q > toks.len()) {
                    lemma_yp_block_shape(toks, b, q);
                    if let Ok((rest, r)) = yp_block(toks, b, q) {
                        lemma_shaped_cons(n, rest, b, true);
                    }
                }
            },
            Ok((None, q)) => {
                if !(q >= toks.len() || q < p) {
                    lemma_yp_block_shape(toks, b, q + 1);
                }
            },
            Err(()) => {},
        }
    }
}

proof fn lemma_yp_top_shape(toks: Seq<YamlToken>, b: Seq<u8>, pos: int)
    requires
        0 <= pos <= toks.len(),
    ensures
        yp_top(toks, b, pos) matches Ok(cs) ==> all_shaped(cs, b, true),
    decreases toks.len() - pos,
{
    lemma_skip_nl(toks, pos);
    let p = skip_nl(toks, pos);
    if p < toks.len() {
        lemma_yp_entry_shape(toks, b, p);
        match yp_entry(toks, b, p) {
            Ok((Some(n), q)) => {
                if !(q <= p || q > toks.len()) {
                    lemma_yp_top_shape(toks, b, q);
                    if let Ok(rest) = yp_top(toks, b, q) {
                        lemma_shaped_cons(n, rest, b, true);
                    }
                }
            },
            Ok((None, q)) => {
                if !(q >= toks.len() || q < p) {
                    lemma_yp_top_shape(toks, b, q + 1);
                }
            },
            Err(()) => {},
        }
    }
}

/// A parsed YAML tree is an unnamed object spanning the whole text, whose
/// nodes all have the YAML shape: objects hold named entries, arrays hold
/// unnamed items, other nodes have no children, and the text at a
/// named node's start begins with its name.
pub proof fn lemma_yaml_parse_shape(toks: Seq<YamlToken>, b: Seq<u8>)
    ensures
        yaml_parse(toks, b) matches Ok(root) ==> root.kind == SyntaxKind::Object && root.name is None && root.span
            == (Span { start: 0, end: b.len() as usize }) && yaml_shaped(root, b),
{
    lemma_yp_top_shape(toks, b, 0);
}

/// The syntax tree of a YAML token sequence: an object that spans the whole
/// source and holds the top-level entries; `Err(())` where parsing would
/// panic.
pub open spec fn yaml_parse(toks: Seq<YamlToken>, b: Seq<u8>) -> Result<SpecNode, ()> {
    match yp_top(toks, b, 0) {
        Ok(cs) => Ok(SpecNode { kind: SyntaxKind::Object, span: Span { start: 0, end: b.len() as usize }, name: None, children: cs }),
        Err(()) => Err(()),
    }
}

/// Puts the nodes `cs` in front of the nodes of a result.
pub open spec fn yprepend(cs: Seq<SpecNode>, r: Result<(Seq<SpecNode>, int), ()>) -> Result<(Seq<SpecNode>, int), ()> {
    match r {
        Ok((rest, q)) => Ok((cs + rest, q)),
        Err(()) => Err(()),
    }
}

pub proof fn lemma_yprepend_cons(cs: Seq<SpecNode>, n: SpecNode, r: Result<(Seq<SpecNode>, int), ()>)
    ensures
        yprepend(cs, ycons(n, r)) == yprepend(cs.push(n), r),
{
    if let Ok((rest, q)) = r {
        assert(cs + (seq![n] + rest) =~= cs.push(n) + rest);
    }
}

pub struct YamlSyntaxParser<'a> {
    tokens: &'a [YamlToken],
    source: &'a str,
    current: usize,
}

impl<'a> YamlSyntaxParser<'a> {
    pub closed spec fn spec_tokens(&self) -> Seq<YamlToken> {
        self.tokens@
    }

    pub closed spec fn spec_source(&self) -> &'a str {
        self.source
    }

    pub closed spec fn spec_current(&self) -> usize {
        self.current
    }

    pub fn new(tokens: &'a [YamlToken], source: &'a str) -> (p: Self)
        ensures
            p.spec_tokens() == tokens@,
            p.spec_source() == source,
            p.spec_current() == 0,
    {
        YamlSyntaxParser { tokens, source, current: 0 }
    }

    /// Parses the top-level entries into an object that spans the source.
    pub fn parse(self) -> (r: SyntaxNode)
        requires
            self.spec_current() == 0,
            yaml_parse(self.spec_tokens(), self.spec_source().spec_bytes()) is Ok,
        ensures
            yaml_parse(self.spec_tokens(), self.spec_source().spec_bytes()) == Ok::<SpecNode, ()>(node_view(r)),
    {
        let mut parser = self;
        let ghost toks = parser.tokens@;
        let ghost b = parser.source.spec_bytes();
        let mut children: Vec<SyntaxNode> = Vec::new();
        parser.skip_newlines();
        proof {
            lemma_skip_nl(toks, 0);
        }
        assert(nodes_view(children@) =~= seq![]);
        loop
            invariant
                parser.tokens@ == toks,
                parser.source.spec_bytes() == b,
                parser.current <= toks.len(),
                parser.current == skip_nl(toks, parser.current as int),
                yp_top(toks, b, 0) matches Ok(all) && (yp_top_at(toks, b, parser.current as int) matches Ok(rest) && all == nodes_view(children@) + rest),
            ensures
                parser.tokens@ == toks,
                parser.source.spec_bytes() == b,
                parser.current >= toks.len(),
                yp_top(toks, b, 0) matches Ok(all) && (yp_top_at(toks, b, parser.current as int) matches Ok(rest) && all == nodes_view(children@) + rest),
            decreases toks.len() - parser.current,
        {
            if parser.is_at_end() {
                break;
            }
            let ghost cur = parser.current as int;
            proof {
                lemma_skip_nl(toks, cur);
            }
            match parser.parse_mapping_entry() {
                Some(node) => {
                    let ghost before = children@;
                    children.push(node);
                    assert(nodes_view(children@) =~= nodes_view(before).push(node_view(node)));
                    let ghost q = parser.current as int;
                    proof {
                        lemma_skip_nl(toks, q);
                    }
                    parser.skip_newlines();
                    proof {
                        lemma_skip_nl(toks, parser.current as int);
                        let rest = yp_top(toks, b, q).unwrap();
                        assert(nodes_view(before) + (seq![node_view(node)] + rest) =~= nodes_view(children@) + rest);
                    }
                },
                None => {
                    parser.advance();
                    let ghost q1 = parser.current as int;
                    parser.skip_newlines();
                    proof {
                        lemma_skip_nl(toks, q1);
                    }
                },
            }
        }
        proof {
            assert(nodes_view(children@) + seq![] =~= nodes_view(children@));
        }
        let end = parser.source.len();
        SyntaxNode { kind: SyntaxKind::Object, span: Span::new(0, end), name: None, children }
    }

    fn parse_mapping_entry(&mut self) -> (r: Option<SyntaxNode>)
        requires
            yp_entry(old(self).tokens@, old(self).source.spec_bytes(), old(self).current as int) is Ok,
            old(self).current <= old(self).tokens@.len(),
        ensures
            final(self).tokens == old(self).tokens,
            final(self).source == old(self).source,
            final(self).current <= final(self).tokens@.len(),
            match yp_entry(old(self).tokens@, old(self).source.spec_bytes(), old(self).current as int) {
                Ok((Some(n), q)) => r matches Some(node) && node_view(node) == n && final(self).current == q
                    && old(self).current < q,
                Ok((None, q)) => r is None && final(self).current == q && old(self).current <= q,
                Err(()) => false,
            },
        decreases old(self).tokens@.len() - old(self).current, 0int,
    {
        let ghost toks = self.tokens@;
        let ghost b = self.source.spec_bytes();
        let key = match self.current_token() {
            Some(t) => *t,
            None => return None,
        };
        if key.kind != YamlTokenKind::Key {
            return None;
        }
        let key_span = key.span;
        let name = String::from_str(slice_str(self.source, key_span.start, key_span.end));
        self.advance();
        if self.expect(YamlTokenKind::Colon).is_none() {
            return None;
        }
        if self.check(YamlTokenKind::Scalar) {
            let value_token = self.advance();
            let n = Self::leaf_node(SyntaxKind::String, Span::new(key_span.start, value_token.span.end), Some(name));
            return Some(n);
        }
        if self.check(YamlTokenKind::Newline) {
            self.advance();
        }
        if self.check(YamlTokenKind::Indent) {
            let indent = self.advance();
            if self.check(YamlTokenKind::Dash) {
                let children = self.parse_sequence_entries();
                let end = if children.len() > 0 {
                    children[children.len() - 1].span.end
                } else {
                    indent.span.end
                };
                return Some(SyntaxNode { kind: SyntaxKind::Array, span: Span::new(key_span.start, end), name: Some(name), children });
            }
            let children = self.parse_indented_entries();
            let end = if children.len() > 0 {
                children[children.len() - 1].span.end
            } else {
                indent.span.end
            };
            return Some(SyntaxNode { kind: SyntaxKind::Object, span: Span::new(key_span.start, end), name: Some(name), children });
        }
        Some(Self::leaf_node(SyntaxKind::Null, key_span, Some(name)))
    }

    fn parse_sequence_entries(&mut self) -> (r: Vec<SyntaxNode>)
        requires
            yp_seq(old(self).tokens@, old(self).source.spec_bytes(), old(self).current as int) is Ok,
            old(self).current <= old(self).tokens@.len(),
        ensures
            final(self).tokens == old(self).tokens,
            final(self).source == old(self).source,
            final(self).current <= final(self).tokens@.len(),
            match yp_seq(old(self).tokens@, old(self).source.spec_bytes(), old(self).current as int) {
                Ok((cs, q)) => nodes_view(r@) == cs && final(self).current == (if is_at(old(self).tokens@, q, YamlTokenKind::Dedent) {
                    q + 1
                } else {
                    q
                }) && old(self).current <= q,
                Err(()) => false,
            },
        decreases old(self).tokens@.len() - old(self).current, 2int,
    {
        let ghost toks = self.tokens@;
        let ghost b = self.source.spec_bytes();
        let ghost c0 = self.current as int;
        let mut children: Vec<SyntaxNode> = Vec::new();
        assert(nodes_view(children@) =~= seq![]);
        loop
            invariant_except_break
                yp_seq(toks, b, c0) == yprepend(nodes_view(children@), yp_seq(toks, b, self.current as int)),
            invariant
                self.tokens@ == toks,
                self.source.spec_bytes() == b,
                self.tokens == old(self).tokens,
                self.source == old(self).source,
                c0 == old(self).current,
                toks == old(self).tokens@,
                c0 <= self.current <= toks.len(),
                yp_seq(toks, b, c0) is Ok,
            ensures
                self.tokens@ == toks,
                self.source.spec_bytes() == b,
                self.tokens == old(self).tokens,
                self.source == old(self).source,
                c0 <= self.current <= toks.len(),
                yp_seq(toks, b, c0) == Ok::<(Seq<SpecNode>, int), ()>((nodes_view(children@), self.current as int)),
            decreases toks.len() - self.current,
        {
            let ghost cur = self.current as int;
            if self.is_at_end() {
                break;
            }
            proof {
                lemma_skip_nl(toks, cur);
            }
            self.skip_newlines();
            if !self.check(YamlTokenKind::Dash) {
                break;
            }
            let dash = self.advance();
            if self.check(YamlTokenKind::Key) {
                match self.parse_mapping_entry() {
                    None => {
                        continue;
                    },
                    Some(first) => {
                        let ghost q = self.current as int;
                        let mut object_children: Vec<SyntaxNode> = Vec::new();
                        object_children.push(first);
                        proof {
                            lemma_skip_nl(toks, q);
                        }
                        self.skip_newlines();
                        if self.check(YamlTokenKind::Indent) {
                            self.advance();
                            let mut remaining = self.parse_indented_entries();
                            object_children.append(&mut remaining);
                        }
                        assert(nodes_view(object_children@) =~= seq![node_view(first)] + (if is_at(toks, skip_nl(toks, q), YamlTokenKind::Indent) {
                            yp_block(toks, b, skip_nl(toks, q) + 1).unwrap().0
                        } else {
                            seq![]
                        }));
                        let end = if object_children.len() > 0 {
                            object_children[object_children.len() - 1].span.end
                        } else {
                            dash.span.end
                        };
                        let item = SyntaxNode { kind: SyntaxKind::Object, span: Span::new(dash.span.start, end), name: None, children: object_children };
                        let ghost before = children@;
                        children.push(item);
                        assert(nodes_view(children@) =~= nodes_view(before).push(node_view(item)));
                        proof {
                            lemma_yprepend_cons(nodes_view(before), node_view(item), yp_seq(toks, b, self.current as int));
                        }
                        continue;
                    },
                }
            }
            if self.check(YamlTokenKind::Scalar) {
                let value = self.advance();
                let item = Self::leaf_node(SyntaxKind::String, Span::new(dash.span.start, value.span.end), None);
                let ghost before = children@;
                children.push(item);
                assert(nodes_view(children@) =~= nodes_view(before).push(node_view(item)));
                proof {
                    lemma_yprepend_cons(nodes_view(before), node_view(item), yp_seq(toks, b, self.current as int));
                }
                continue;
            }
            let item = Self::leaf_node(SyntaxKind::Null, dash.span, None);
            let ghost before = children@;
            children.push(item);
            assert(nodes_view(children@) =~= nodes_view(before).push(node_view(item)));
            proof {
                lemma_yprepend_cons(nodes_view(before), node_view(item), yp_seq(toks, b, self.current as int));
            }
        }
        if self.check(YamlTokenKind::Dedent) {
            self.advance();
        }
        children
    }

    fn parse_indented_entries(&mut self) -> (r: Vec<SyntaxNode>)
        requires
            yp_block(old(self).tokens@, old(self).source.spec_bytes(), old(self).current as int) is Ok,
            old(self).current <= old(self).tokens@.len(),
        ensures
            final(self).tokens == old(self).tokens,
            final(self).source == old(self).source,
            final(self).current <= final(self).tokens@.len(),
            match yp_block(old(self).tokens@, old(self).source.spec_bytes(), old(self).current as int) {
                Ok((cs, q)) => nodes_view(r@) == cs && final(self).current == q && old(self).current <= q,
                Err(()) => false,
            },
        decreases old(self).tokens@.len() - old(self).current, 1int,
    {
        let ghost toks = self.tokens@;
        let ghost b = self.source.spec_bytes();
        let ghost c0 = self.current as int;
        let mut children: Vec<SyntaxNode> = Vec::new();
        assert(nodes_view(children@) =~= seq![]);
        proof {
            lemma_skip_nl(toks, c0);
        }
        self.skip_newlines();
        loop
            invariant_except_break
                yp_block(toks, b, c0) == yprepend(nodes_view(children@), yp_block_at(toks, b, self.current as int)),
            invariant
                self.tokens@ == toks,
                self.source.spec_bytes() == b,
                self.tokens == old(self).tokens,
                self.source == old(self).source,
                c0 == old(self).current,
                toks == old(self).tokens@,
                c0 <= self.current <= toks.len(),
                yp_block(toks, b, c0) is Ok,
            ensures
                self.tokens@ == toks,
                self.source.spec_bytes() == b,
                self.tokens == old(self).tokens,
                self.source == old(self).source,
                c0 <= self.current <= toks.len(),
                yp_block(toks, b, c0) == Ok::<(Seq<SpecNode>, int), ()>((nodes_view(children@), self.current as int)),
            decreases toks.len() - self.current,
        {
            let ghost cur = self.current as int;
            if self.is_at_end() {
                break;
            }
            if self.check(YamlTokenKind::Dedent) {
                self.advance();
                break;
            }
            match self.parse_mapping_entry() {
                Some(node) => {
                    let ghost before = children@;
                    children.push(node);
                    assert(nodes_view(children@) =~= nodes_view(before).push(node_view(node)));
                    let ghost q = self.current as int;
                    proof {
                        lemma_skip_nl(toks, q);
                        lemma_yprepend_cons(nodes_view(before), node_view(node), yp_block(toks, b, q));
                    }
                    self.skip_newlines();
                },
                None => {
                    self.advance();
                    let ghost q1 = self.current as int;
                    self.skip_newlines();
                    proof {
                        lemma_skip_nl(toks, q1);
                    }
                },
            }
        }
        children
    }

    fn leaf_node(kind: SyntaxKind, span: Span, name: Option<String>) -> (n: SyntaxNode)
        ensures
            node_view(n) == leaf(kind, span, opt_string_view(name)),
    {
        let children: Vec<SyntaxNode> = Vec::new();
        assert(nodes_view(children@) =~= seq![]);
        SyntaxNode { kind, span, name, children }
    }

    fn advance(&mut self) -> (t: YamlToken)
        requires
            old(self).current < old(self).tokens@.len(),
        ensures
            t == old(self).tokens@[old(self).current as int],
            final(self).current == old(self).current + 1,
            final(self).tokens == old(self).tokens,
            final(self).source == old(self).source,
    {
        let token = self.tokens[self.current];
        self.current += 1;
        token
    }

    fn current_token(&self) -> (t: Option<&YamlToken>)
        ensures
            match t {
                Some(t) => self.current < self.tokens@.len() && *t == self.tokens@[self.current as int],
                None => self.current >= self.tokens@.len(),
            },
    {
        if self.current < self.tokens.len() {
            Some(&self.tokens[self.current])
        } else {
            None
        }
    }

    fn expect(&mut self, kind: YamlTokenKind) -> (t: Option<YamlToken>)
        ensures
            final(self).tokens == old(self).tokens,
            final(self).source == old(self).source,
            match t {
                Some(t) => is_at(old(self).tokens@, old(self).current as int, kind)
                    && t == old(self).tokens@[old(self).current as int]
                    && final(self).current == old(self).current + 1,
                None => !is_at(old(self).tokens@, old(self).current as int, kind)
                    && final(self).current == old(self).current,
            },
    {
        if !self.check(kind) {
            return None;
        }
        Some(self.advance())
    }

    fn check(&self, kind: YamlTokenKind) -> (b: bool)
        ensures
            b == is_at(self.tokens@, self.current as int, kind),
    {
        self.current < self.tokens.len() && self.tokens[self.current].kind == kind
    }

    fn skip_newlines(&mut self)
        ensures
            final(self).current == skip_nl(old(self).tokens@, old(self).current as int),
            final(self).tokens == old(self).tokens,
            final(self).source == old(self).source,
    {
        while self.check(YamlTokenKind::Newline)
            invariant
                self.tokens == old(self).tokens,
                self.source == old(self).source,
                skip_nl(self.tokens@, self.current as int) == skip_nl(old(self).tokens@, old(self).current as int),
                self.current >= old(self).current,
            decreases self.tokens@.len() - self.current,
        {
            self.advance();
        }
    }

    fn is_at_end(&self) -> (b: bool)
        ensures
            b == (self.current >= self.tokens@.len()),
    {
        self.current >= self.tokens.len()
    }
}

} // verus!

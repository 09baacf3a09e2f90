//! Builds a syntax tree of declarations from TypeScript tokens.
//!
//! The parser is lenient: a construct it does not recognise yields no node,
//! and the parser goes on from wherever the failed attempt left it.
use vstd::prelude::*;
use vstd::string::{StringExecFns, StringSliceAdditionalSpecFns};
use crate::span::Span;
use crate::syntax::{leaf, lemma_node_view, node_view, nodes_view, opt_node_view, SpecNode, SyntaxKind, SyntaxNode};
use crate::text::{is_slice, slice_str, text_of};
use crate::typescript::lexer::{TypeScriptToken, TypeScriptTokenKind};

verus! {

broadcast use {vstd::seq::group_seq_axioms, lemma_node_view};

/// The position of the first token at or after `pos` that is not a newline.
pub open spec fn ts_skip_nl(toks: Seq<TypeScriptToken>, pos: int) -> int
    decreases toks.len() - pos,
{
    if 0 <= pos < toks.len() && toks[pos].kind == TypeScriptTokenKind::Newline {
        ts_skip_nl(toks, pos + 1)
    } else {
        pos
    }
}

proof fn lemma_ts_skip_nl(toks: Seq<TypeScriptToken>, pos: int)
    ensures
        pos <= ts_skip_nl(toks, pos),
        0 <= pos <= toks.len() ==> ts_skip_nl(toks, pos) <= toks.len(),
    decreases toks.len() - pos,
{
    if 0 <= pos < toks.len() && toks[pos].kind == TypeScriptTokenKind::Newline {
        lemma_ts_skip_nl(toks, pos + 1);
    }
}

/// The token at `pos` exists and has kind `kind`.
pub open spec fn at_kind(toks: Seq<TypeScriptToken>, pos: int, kind: TypeScriptTokenKind) -> bool {
    0 <= pos < toks.len() && toks[pos].kind == kind
}

/// The text of the token at `pos`.
pub open spec fn token_text(toks: Seq<TypeScriptToken>, b: Seq<u8>, pos: int) -> Seq<char> {
    text_of(b, toks[pos].span.start as int, toks[pos].span.end as int)
}

/// The text of the token at `pos` can be sliced out of the source.
pub open spec fn sliceable(toks: Seq<TypeScriptToken>, b: Seq<u8>, pos: int) -> bool {
    is_slice(b, toks[pos].span.start as int, toks[pos].span.end as int)
}

/// Where parsing goes on after the token at `q` and a following comma, if
/// any, newlines skipped.
pub open spec fn after_item(toks: Seq<TypeScriptToken>, q: int) -> int {
    let q1 = ts_skip_nl(toks, q);
    if at_kind(toks, q1, TypeScriptTokenKind::Comma) {
        ts_skip_nl(toks, q1 + 1)
    } else {
        q1
    }
}

/// Puts `n` in front of the nodes of a list result that did not fail.
pub open spec fn tcons(
    n: SpecNode,
    r: Result<(Option<Seq<SpecNode>>, int), ()>,
) -> Result<(Option<Seq<SpecNode>>, int), ()> {
    match r {
        Ok((Some(cs), q)) => Ok((Some(seq![n] + cs), q)),
        other => other,
    }
}

/// Puts `n` in front of the nodes of a list result.
pub open spec fn tcons_all(n: SpecNode, r: Result<(Seq<SpecNode>, int), ()>) -> Result<
    (Seq<SpecNode>, int),
    (),
> {
    match r {
        Ok((cs, q)) => Ok((seq![n] + cs, q)),
        Err(()) => Err(()),
    }
}

/// A node of kind `kind` named `name`, opened at byte `start`, with children
/// `cs`, closed by a token of kind `close` at `q` (`None` when that token is
/// missing).
pub open spec fn tclose(
    toks: Seq<TypeScriptToken>,
    kind: SyntaxKind,
    start: usize,
    name: Option<Seq<char>>,
    close: TypeScriptTokenKind,
    r: Result<(Option<Seq<SpecNode>>, int), ()>,
) -> Result<(Option<SpecNode>, int), ()> {
    match r {
        Err(()) => Err(()),
        Ok((None, q)) => Ok((None, q)),
        Ok((Some(cs), q)) => if at_kind(toks, q, close) {
            Ok((Some(SpecNode { kind, span: Span { start, end: toks[q].span.end }, name, children: cs }), q + 1))
        } else {
            Ok((None, q))
        },
    }
}

// Each parsing function below takes the token position it starts at and gives
// `Ok((node, q))`: the node it built, or `None` where the construct is not
// there, and the position `q` it left the parser at. `Err(())` marks a parse
// that would panic: a name sliced out of the source off character boundaries,
// or a step past the last token. A position that would not move forward is
// reported as `Err(())` too, which keeps the recursion well founded;
// `lemma_ts_progress` shows that this never happens.

/// A value: a string, number, boolean, object, array or identifier.
pub open spec fn tp_value(toks: Seq<TypeScriptToken>, b: Seq<u8>, pos: int) -> Result<(Option<SpecNode>, int), ()>
    decreases toks.len() - pos, 2int,
{
    if pos < 0 || pos >= toks.len() {
        Ok((None, pos))
    } else {
        let t = toks[pos];
        match t.kind {
            TypeScriptTokenKind::String => Ok((Some(leaf(SyntaxKind::String, t.span, None)), pos + 1)),
            TypeScriptTokenKind::Number => Ok((Some(leaf(SyntaxKind::Number, t.span, None)), pos + 1)),
            TypeScriptTokenKind::Boolean => Ok((Some(leaf(SyntaxKind::Boolean, t.span, None)), pos + 1)),
            TypeScriptTokenKind::OpenBrace => tp_object(toks, b, pos),
            TypeScriptTokenKind::OpenBracket => tp_array(toks, b, pos),
            TypeScriptTokenKind::Identifier => if !sliceable(toks, b, pos) {
                Err(())
            } else {
                Ok((Some(leaf(SyntaxKind::Identifier, t.span, Some(token_text(toks, b, pos)))), pos + 1))
            },
            _ => Ok((None, pos)),
        }
    }
}

/// An object literal `{ key: value, ... }`.
pub open spec fn tp_object(toks: Seq<TypeScriptToken>, b: Seq<u8>, pos: int) -> Result<(Option<SpecNode>, int), ()>
    decreases toks.len() - pos, 1int,
{
    if !at_kind(toks, pos, TypeScriptTokenKind::OpenBrace) {
        Ok((None, pos))
    } else {
        let p1 = ts_skip_nl(toks, pos + 1);
        if p1 <= pos || p1 > toks.len() {
            Err(())
        } else {
            tclose(toks, SyntaxKind::Object, toks[pos].span.start, None, TypeScriptTokenKind::CloseBrace, tp_props(toks, b, p1))
        }
    }
}

/// The properties of an object literal from `pos` up to its closing brace.
pub open spec fn tp_props(toks: Seq<TypeScriptToken>, b: Seq<u8>, pos: int) -> Result<(Option<Seq<SpecNode>>, int), ()>
    decreases toks.len() - pos, 0int,
{
    if pos < 0 || pos >= toks.len() || at_kind(toks, pos, TypeScriptTokenKind::CloseBrace) {
        Ok((Some(seq![]), pos))
    } else if !at_kind(toks, pos, TypeScriptTokenKind::Identifier) {
        Ok((None, pos))
    } else if !sliceable(toks, b, pos) {
        Err(())
    } else if !at_kind(toks, pos + 1, TypeScriptTokenKind::Colon) {
        Ok((None, pos + 1))
    } else {
        match tp_value(toks, b, pos + 2) {
            Err(()) => Err(()),
            Ok((None, q)) => Ok((None, q)),
            Ok((Some(v), q)) => {
                let prop = SpecNode {
                    kind: SyntaxKind::Property,
                    span: Span { start: toks[pos].span.start, end: v.span.end },
                    name: Some(token_text(toks, b, pos)),
                    children: seq![v],
                };
                let next = after_item(toks, q);
                if next <= pos || next > toks.len() {
                    Err(())
                } else {
                    tcons(prop, tp_props(toks, b, next))
                }
            },
        }
    }
}

/// An array literal `[ value, ... ]`.
pub open spec fn tp_array(toks: Seq<TypeScriptToken>, b: Seq<u8>, pos: int) -> Result<(Option<SpecNode>, int), ()>
    decreases toks.len() - pos, 1int,
{
    if !at_kind(toks, pos, TypeScriptTokenKind::OpenBracket) {
        Ok((None, pos))
    } else {
        let p1 = ts_skip_nl(toks, pos + 1);
        if p1 <= pos || p1 > toks.len() {
            Err(())
        } else {
            tclose(toks, SyntaxKind::Array, toks[pos].span.start, None, TypeScriptTokenKind::CloseBracket, tp_elems(toks, b, p1))
        }
    }
}

/// The elements of an array literal from `pos` up to its closing bracket.
pub open spec fn tp_elems(toks: Seq<TypeScriptToken>, b: Seq<u8>, pos: int) -> Result<(Option<Seq<SpecNode>>, int), ()>
    decreases toks.len() - pos, 3int,
{
    if pos < 0 || pos >= toks.len() || at_kind(toks, pos, TypeScriptTokenKind::CloseBracket) {
        Ok((Some(seq![]), pos))
    } else {
        match tp_value(toks, b, pos) {
            Err(()) => Err(()),
            Ok((None, q)) => Ok((None, q)),
            Ok((Some(v), q)) => {
                let next = after_item(toks, q);
                if next <= pos || next > toks.len() {
                    Err(())
                } else {
                    tcons(v, tp_elems(toks, b, next))
                }
            },
        }
    }
}


/// A declaration keyword: `const`, `let` or `var`.
pub open spec fn is_decl_keyword(k: TypeScriptTokenKind) -> bool {
    k == TypeScriptTokenKind::Const || k == TypeScriptTokenKind::Let || k == TypeScriptTokenKind::Var
}

/// A variable declaration `const name = value;` (the semicolon optional).
pub open spec fn tp_var(toks: Seq<TypeScriptToken>, b: Seq<u8>, pos: int) -> Result<(Option<SpecNode>, int), ()> {
    if !(0 <= pos < toks.len() && is_decl_keyword(toks[pos].kind)) {
        Ok((None, pos))
    } else if !at_kind(toks, pos + 1, TypeScriptTokenKind::Identifier) {
        Ok((None, pos + 1))
    } else if !sliceable(toks, b, pos + 1) {
        Err(())
    } else if !at_kind(toks, pos + 2, TypeScriptTokenKind::Equals) {
        Ok((None, pos + 2))
    } else {
        match tp_value(toks, b, pos + 3) {
            Err(()) => Err(()),
            Ok((None, q)) => Ok((None, q)),
            Ok((Some(v), q)) => {
                let semi = at_kind(toks, q, TypeScriptTokenKind::Semicolon);
                let end = if semi { toks[q].span.end } else { v.span.end };
                Ok((
                    Some(SpecNode {
                        kind: SyntaxKind::Property,
                        span: Span { start: toks[pos + 1].span.start, end },
                        name: Some(token_text(toks, b, pos + 1)),
                        children: seq![v],
                    }),
                    if semi { q + 1 } else { q },
                ))
            },
        }
    }
}

/// The rest `.member.member` of a dotted name that so far reads `name`.
pub open spec fn tp_dots(toks: Seq<TypeScriptToken>, b: Seq<u8>, pos: int, name: Seq<char>) -> Result<
    (Option<Seq<char>>, int),
    (),
>
    decreases toks.len() - pos,
{
    if !at_kind(toks, pos, TypeScriptTokenKind::Dot) {
        Ok((Some(name), pos))
    } else if !at_kind(toks, pos + 1, TypeScriptTokenKind::Identifier) {
        Ok((None, pos + 1))
    } else if !sliceable(toks, b, pos + 1) {
        Err(())
    } else {
        tp_dots(toks, b, pos + 2, name + "."@ + token_text(toks, b, pos + 1))
    }
}

/// The arguments of a call from `pos` up to its closing parenthesis; a
/// missing comma ends the list.
pub open spec fn tp_args(toks: Seq<TypeScriptToken>, b: Seq<u8>, pos: int) -> Result<(Option<Seq<SpecNode>>, int), ()>
    decreases toks.len() - pos,
{
    if pos < 0 || pos >= toks.len() || at_kind(toks, pos, TypeScriptTokenKind::CloseParen) {
        Ok((Some(seq![]), pos))
    } else {
        match tp_value(toks, b, pos) {
            Err(()) => Err(()),
            Ok((None, q)) => Ok((None, q)),
            Ok((Some(v), q)) => {
                let q1 = ts_skip_nl(toks, q);
                if !at_kind(toks, q1, TypeScriptTokenKind::Comma) {
                    Ok((Some(seq![v]), q1))
                } else {
                    let next = ts_skip_nl(toks, q1 + 1);
                    if next <= pos || next > toks.len() {
                        Err(())
                    } else {
                        tcons(v, tp_args(toks, b, next))
                    }
                }
            },
        }
    }
}

/// A call `name.member(argument, ...)`.
pub open spec fn tp_call(toks: Seq<TypeScriptToken>, b: Seq<u8>, pos: int) -> Result<(Option<SpecNode>, int), ()> {
    if !at_kind(toks, pos, TypeScriptTokenKind::Identifier) {
        Ok((None, pos))
    } else if !sliceable(toks, b, pos) {
        Err(())
    } else {
        match tp_dots(toks, b, pos + 1, token_text(toks, b, pos)) {
            Err(()) => Err(()),
            Ok((None, q)) => Ok((None, q)),
            Ok((Some(name), q)) => if !at_kind(toks, q, TypeScriptTokenKind::OpenParen) {
                Ok((None, q))
            } else {
                tclose(
                    toks,
                    SyntaxKind::Call,
                    toks[pos].span.start,
                    Some(name),
                    TypeScriptTokenKind::CloseParen,
                    tp_args(toks, b, ts_skip_nl(toks, q + 1)),
                )
            },
        }
    }
}

/// The statements of a block from `pos` up to its closing brace: variable
/// declarations and calls; any other token is skipped.
pub open spec fn tp_block_items(toks: Seq<TypeScriptToken>, b: Seq<u8>, pos: int) -> Result<(Seq<SpecNode>, int), ()>
    decreases toks.len() - pos,
{
    if pos < 0 || pos >= toks.len() || at_kind(toks, pos, TypeScriptTokenKind::CloseBrace) {
        Ok((seq![], pos))
    } else {
        match tp_var(toks, b, pos) {
            Err(()) => Err(()),
            Ok((Some(n), q)) => {
                let next = ts_skip_nl(toks, q);
                if next <= pos || next > toks.len() {
                    Err(())
                } else {
                    tcons_all(n, tp_block_items(toks, b, next))
                }
            },
            Ok((None, q)) => match tp_call(toks, b, q) {
                Err(()) => Err(()),
                Ok((Some(n), r)) => {
                    let next = ts_skip_nl(toks, r);
                    if next <= pos || next > toks.len() {
                        Err(())
                    } else {
                        tcons_all(n, tp_block_items(toks, b, next))
                    }
                },
                Ok((None, r)) => if r < 0 || r >= toks.len() {
                    Err(())
                } else {
                    let next = ts_skip_nl(toks, r + 1);
                    if next <= pos || next > toks.len() {
                        Err(())
                    } else {
                        tp_block_items(toks, b, next)
                    }
                },
            },
        }
    }
}

/// A block `{ statement ... }`.
pub open spec fn tp_block(toks: Seq<TypeScriptToken>, b: Seq<u8>, pos: int) -> Result<(Option<SpecNode>, int), ()> {
    if !at_kind(toks, pos, TypeScriptTokenKind::OpenBrace) {
        Ok((None, pos))
    } else {
        match tp_block_items(toks, b, ts_skip_nl(toks, pos + 1)) {
            Err(()) => Err(()),
            Ok((items, q)) => if !at_kind(toks, q, TypeScriptTokenKind::CloseBrace) {
                Ok((None, q))
            } else {
                Ok((
                    Some(SpecNode {
                        kind: SyntaxKind::Block,
                        span: Span { start: toks[pos].span.start, end: toks[q].span.end },
                        name: None,
                        children: items,
                    }),
                    q + 1,
                ))
            },
        }
    }
}

/// The parameters `name: type, ...` of a function from `pos` up to the
/// closing parenthesis; a token that is not a name is skipped.
pub open spec fn tp_params(toks: Seq<TypeScriptToken>, b: Seq<u8>, pos: int) -> Result<(Seq<SpecNode>, int), ()>
    decreases toks.len() - pos,
{
    if pos < 0 || pos >= toks.len() || at_kind(toks, pos, TypeScriptTokenKind::CloseParen) {
        Ok((seq![], pos))
    } else if !at_kind(toks, pos, TypeScriptTokenKind::Identifier) {
        tp_params(toks, b, pos + 1)
    } else if !sliceable(toks, b, pos) {
        Err(())
    } else {
        let p = if !at_kind(toks, pos + 1, TypeScriptTokenKind::Colon) {
            pos + 1
        } else if at_kind(toks, pos + 2, TypeScriptTokenKind::Identifier) {
            pos + 3
        } else {
            pos + 2
        };
        let next = if at_kind(toks, p, TypeScriptTokenKind::Comma) { p + 1 } else { p };
        tcons_all(
            leaf(SyntaxKind::Property, toks[pos].span, Some(token_text(toks, b, pos))),
            tp_params(toks, b, next),
        )
    }
}

/// A function declaration `function name(parameters): type { ... }`.
pub open spec fn tp_function(toks: Seq<TypeScriptToken>, b: Seq<u8>, pos: int) -> Result<(Option<SpecNode>, int), ()> {
    if !at_kind(toks, pos, TypeScriptTokenKind::Function) {
        Ok((None, pos))
    } else if !at_kind(toks, pos + 1, TypeScriptTokenKind::Identifier) {
        Ok((None, pos + 1))
    } else if !sliceable(toks, b, pos + 1) {
        Err(())
    } else if !at_kind(toks, pos + 2, TypeScriptTokenKind::OpenParen) {
        Ok((None, pos + 2))
    } else {
        match tp_params(toks, b, pos + 3) {
            Err(()) => Err(()),
            Ok((params, q)) => if !at_kind(toks, q, TypeScriptTokenKind::CloseParen) {
                Ok((None, q))
            } else {
                let r = if !at_kind(toks, q + 1, TypeScriptTokenKind::Colon) {
                    q + 1
                } else if q + 2 < toks.len() {
                    q + 3
                } else {
                    q + 2
                };
                match tp_block(toks, b, r) {
                    Err(()) => Err(()),
                    Ok((None, s)) => Ok((None, s)),
                    Ok((Some(body), s)) => Ok((
                        Some(SpecNode {
                            kind: SyntaxKind::Function,
                            span: Span { start: toks[pos].span.start, end: body.span.end },
                            name: Some(token_text(toks, b, pos + 1)),
                            children: params.push(body),
                        }),
                        s,
                    )),
                }
            },
        }
    }
}

/// The top-level declarations from `pos` on: variable and function
/// declarations; any other token is skipped.
pub open spec fn tp_items(toks: Seq<TypeScriptToken>, b: Seq<u8>, pos: int) -> Result<Seq<SpecNode>, ()>
    decreases toks.len() - pos,
{
    if pos < 0 || pos >= toks.len() {
        Ok(seq![])
    } else {
        match tp_var(toks, b, pos) {
            Err(()) => Err(()),
            Ok((Some(n), q)) => {
                let next = ts_skip_nl(toks, q);
                if next <= pos || next > toks.len() {
                    Err(())
                } else {
                    match tp_items(toks, b, next) {
                        Ok(rest) => Ok(seq![n] + rest),
                        Err(()) => Err(()),
                    }
                }
            },
            Ok((None, q)) => match tp_function(toks, b, q) {
                Err(()) => Err(()),
                Ok((Some(n), r)) => {
                    let next = ts_skip_nl(toks, r);
                    if next <= pos || next > toks.len() {
                        Err(())
                    } else {
                        match tp_items(toks, b, next) {
                            Ok(rest) => Ok(seq![n] + rest),
                            Err(()) => Err(()),
                        }
                    }
                },
                Ok((None, r)) => if r < 0 || r >= toks.len() {
                    Err(())
                } else {
                    let next = ts_skip_nl(toks, r + 1);
                    if next <= pos || next > toks.len() {
                        Err(())
                    } else {
                        tp_items(toks, b, next)
                    }
                },
            },
        }
    }
}

/// A parse result that stays within the tokens: it leaves the parser at or
/// after `pos` and at most at the end, and past `pos` when it yields a node.
pub open spec fn moves_forward(r: Result<(Option<SpecNode>, int), ()>, pos: int, n: int) -> bool {
    r matches Ok((o, q)) ==> pos <= q <= n && (o is Some ==> pos < q)
}

/// A list result that stays within the tokens, at or after `pos`.
pub open spec fn list_moves_forward(r: Result<(Option<Seq<SpecNode>>, int), ()>, pos: int, n: int) -> bool {
    r matches Ok((_, q)) ==> pos <= q <= n
}

proof fn lemma_after_item(toks: Seq<TypeScriptToken>, q: int)
    requires
        0 <= q <= toks.len(),
    ensures
        q <= after_item(toks, q) <= toks.len(),
{
    lemma_ts_skip_nl(toks, q);
    let q1 = ts_skip_nl(toks, q);
    if at_kind(toks, q1, TypeScriptTokenKind::Comma) {
        lemma_ts_skip_nl(toks, q1 + 1);
    }
}

proof fn lemma_tp_value_progress(toks: Seq<TypeScriptToken>, b: Seq<u8>, pos: int)
    requires
        0 <= pos <= toks.len(),
    ensures
        moves_forward(tp_value(toks, b, pos), pos, toks.len() as int),
    decreases toks.len() - pos, 2int,
{
    if pos < toks.len() {
        if toks[pos].kind == TypeScriptTokenKind::OpenBrace {
            lemma_tp_object_progress(toks, b, pos);
        } else if toks[pos].kind == TypeScriptTokenKind::OpenBracket {
            lemma_tp_array_progress(toks, b, pos);
        }
    }
}

proof fn lemma_tp_object_progress(toks: Seq<TypeScriptToken>, b: Seq<u8>, pos: int)
    requires
        0 <= pos <= toks.len(),
    ensures
        moves_forward(tp_object(toks, b, pos), pos, toks.len() as int),
    decreases toks.len() - pos, 1int,
{
    if at_kind(toks, pos, TypeScriptTokenKind::OpenBrace) {
        lemma_ts_skip_nl(toks, pos + 1);
        lemma_tp_props_progress(toks, b, ts_skip_nl(toks, pos + 1));
    }
}

proof fn lemma_tp_props_progress(toks: Seq<TypeScriptToken>, b: Seq<u8>, pos: int)
    requires
        0 <= pos <= toks.len(),
    ensures
        list_moves_forward(tp_props(toks, b, pos), pos, toks.len() as int),
    decreases toks.len() - pos, 0int,
{
    if pos < toks.len() && !at_kind(toks, pos, TypeScriptTokenKind::CloseBrace) && at_kind(
        toks,
        pos,
        TypeScriptTokenKind::Identifier,
    ) && sliceable(toks, b, pos) && at_kind(toks, pos + 1, TypeScriptTokenKind::Colon) {
        lemma_tp_value_progress(toks, b, pos + 2);
        if let Ok((Some(v), q)) = tp_value(toks, b, pos + 2) {
            lemma_after_item(toks, q);
            lemma_tp_props_progress(toks, b, after_item(toks, q));
        }
    }
}

proof fn lemma_tp_array_progress(toks: Seq<TypeScriptToken>, b: Seq<u8>, pos: int)
    requires
        0 <= pos <= toks.len(),
    ensures
        moves_forward(tp_array(toks, b, pos), pos, toks.len() as int),
    decreases toks.len() - pos, 1int,
{
    if at_kind(toks, pos, TypeScriptTokenKind::OpenBracket) {
        lemma_ts_skip_nl(toks, pos + 1);
        lemma_tp_elems_progress(toks, b, ts_skip_nl(toks, pos + 1));
    }
}

proof fn lemma_tp_elems_progress(toks: Seq<TypeScriptToken>, b: Seq<u8>, pos: int)
    requires
        0 <= pos <= toks.len(),
    ensures
        list_moves_forward(tp_elems(toks, b, pos), pos, toks.len() as int),
    decreases toks.len() - pos, 3int,
{
    if pos < toks.len() && !at_kind(toks, pos, TypeScriptTokenKind::CloseBracket) {
        lemma_tp_value_progress(toks, b, pos);
        if let Ok((Some(v), q)) = tp_value(toks, b, pos) {
            lemma_after_item(toks, q);
            lemma_tp_elems_progress(toks, b, after_item(toks, q));
        }
    }
}

proof fn lemma_tp_var_progress(toks: Seq<TypeScriptToken>, b: Seq<u8>, pos: int)
    requires
        0 <= pos <= toks.len(),
    ensures
        moves_forward(tp_var(toks, b, pos), pos, toks.len() as int),
{
    if pos + 3 <= toks.len() {
        lemma_tp_value_progress(toks, b, pos + 3);
    }
}

proof fn lemma_tp_dots_progress(toks: Seq<TypeScriptToken>, b: Seq<u8>, pos: int, name: Seq<char>)
    requires
        0 <= pos <= toks.len(),
    ensures
        tp_dots(toks, b, pos, name) matches Ok((_, q)) ==> pos <= q <= toks.len(),
    decreases toks.len() - pos,
{
    if at_kind(toks, pos, TypeScriptTokenKind::Dot) && at_kind(toks, pos + 1, TypeScriptTokenKind::Identifier)
        && sliceable(toks, b, pos + 1) {
        lemma_tp_dots_progress(toks, b, pos + 2, name + "."@ + token_text(toks, b, pos + 1));
    }
}

proof fn lemma_tp_args_progress(toks: Seq<TypeScriptToken>, b: Seq<u8>, pos: int)
    requires
        0 <= pos <= toks.len(),
    ensures
        list_moves_forward(tp_args(toks, b, pos), pos, toks.len() as int),
    decreases toks.len() - pos,
{
    if pos < toks.len() && !at_kind(toks, pos, TypeScriptTokenKind::CloseParen) {
        lemma_tp_value_progress(toks, b, pos);
        if let Ok((Some(v), q)) = tp_value(toks, b, pos) {
            lemma_ts_skip_nl(toks, q);
            let q1 = ts_skip_nl(toks, q);
            if at_kind(toks, q1, TypeScriptTokenKind::Comma) {
                lemma_ts_skip_nl(toks, q1 + 1);
                lemma_tp_args_progress(toks, b, ts_skip_nl(toks, q1 + 1));
            }
        }
    }
}

proof fn lemma_tp_call_progress(toks: Seq<TypeScriptToken>, b: Seq<u8>, pos: int)
    requires
        0 <= pos <= toks.len(),
    ensures
        moves_forward(tp_call(toks, b, pos), pos, toks.len() as int),
{
    if at_kind(toks, pos, TypeScriptTokenKind::Identifier) && sliceable(toks, b, pos) {
        lemma_tp_dots_progress(toks, b, pos + 1, token_text(toks, b, pos));
        if let Ok((Some(name), q)) = tp_dots(toks, b, pos + 1, token_text(toks, b, pos)) {
            if at_kind(toks, q, TypeScriptTokenKind::OpenParen) {
                lemma_ts_skip_nl(toks, q + 1);
                lemma_tp_args_progress(toks, b, ts_skip_nl(toks, q + 1));
            }
        }
    }
}

proof fn lemma_tp_block_items_progress(toks: Seq<TypeScriptToken>, b: Seq<u8>, pos: int)
    requires
        0 <= pos <= toks.len(),
    ensures
        tp_block_items(toks, b, pos) matches Ok((_, q)) ==> pos <= q <= toks.len(),
    decreases toks.len() - pos,
{
    if pos < toks.len() && !at_kind(toks, pos, TypeScriptTokenKind::CloseBrace) {
        lemma_tp_var_progress(toks, b, pos);
        match tp_var(toks, b, pos) {
            Ok((Some(n), q)) => {
                lemma_ts_skip_nl(toks, q);
                lemma_tp_block_items_progress(toks, b, ts_skip_nl(toks, q));
            },
            Ok((None, q)) => {
                lemma_tp_call_progress(toks, b, q);
                match tp_call(toks, b, q) {
                    Ok((Some(n), r)) => {
                        lemma_ts_skip_nl(toks, r);
                        lemma_tp_block_items_progress(toks, b, ts_skip_nl(toks, r));
                    },
                    Ok((None, r)) => {
                        if r < toks.len() {
                            lemma_ts_skip_nl(toks, r + 1);
                            lemma_tp_block_items_progress(toks, b, ts_skip_nl(toks, r + 1));
                        }
                    },
                    Err(()) => {},
                }
            },
            Err(()) => {},
        }
    }
}

proof fn lemma_tp_block_progress(toks: Seq<TypeScriptToken>, b: Seq<u8>, pos: int)
    requires
        0 <= pos <= toks.len(),
    ensures
        moves_forward(tp_block(toks, b, pos), pos, toks.len() as int),
{
    if at_kind(toks, pos, TypeScriptTokenKind::OpenBrace) {
        lemma_ts_skip_nl(toks, pos + 1);
        lemma_tp_block_items_progress(toks, b, ts_skip_nl(toks, pos + 1));
    }
}

proof fn lemma_tp_params_progress(toks: Seq<TypeScriptToken>, b: Seq<u8>, pos: int)
    requires
        0 <= pos <= toks.len(),
    ensures
        tp_params(toks, b, pos) matches Ok((_, q)) ==> pos <= q <= toks.len(),
    decreases toks.len() - pos,
{
    if pos < toks.len() && !at_kind(toks, pos, TypeScriptTokenKind::CloseParen) {
        if !at_kind(toks, pos, TypeScriptTokenKind::Identifier) {
            lemma_tp_params_progress(toks, b, pos + 1);
        } else if sliceable(toks, b, pos) {
            let p = if !at_kind(toks, pos + 1, TypeScriptTokenKind::Colon) {
                pos + 1
            } else if at_kind(toks, pos + 2, TypeScriptTokenKind::Identifier) {
                pos + 3
            } else {
                pos + 2
            };
            let next = if at_kind(toks, p, TypeScriptTokenKind::Comma) { p + 1 } else { p };
            lemma_tp_params_progress(toks, b, next);
        }
    }
}

proof fn lemma_tp_function_progress(toks: Seq<TypeScriptToken>, b: Seq<u8>, pos: int)
    requires
        0 <= pos <= toks.len(),
    ensures
        moves_forward(tp_function(toks, b, pos), pos, toks.len() as int),
{
    if at_kind(toks, pos, TypeScriptTokenKind::Function) && at_kind(toks, pos + 1, TypeScriptTokenKind::Identifier)
        && sliceable(toks, b, pos + 1) && at_kind(toks, pos + 2, TypeScriptTokenKind::OpenParen) {
        lemma_tp_params_progress(toks, b, pos + 3);
        if let Ok((params, q)) = tp_params(toks, b, pos + 3) {
            if at_kind(toks, q, TypeScriptTokenKind::CloseParen) {
                let r = if !at_kind(toks, q + 1, TypeScriptTokenKind::Colon) {
                    q + 1
                } else if q + 2 < toks.len() {
                    q + 3
                } else {
                    q + 2
                };
                lemma_tp_block_progress(toks, b, r);
            }
        }
    }
}

/// The TypeScript parsing functions never move the parser back or past the
/// last token, and move it forward whenever they yield a node. So every
/// position the parser goes on from after an item lies ahead of where the
/// item started, and no parsing result is an `Err` for want of progress.
pub proof fn lemma_ts_progress(toks: Seq<TypeScriptToken>, b: Seq<u8>, pos: int)
    requires
        0 <= pos <= toks.len(),
    ensures
        moves_forward(tp_value(toks, b, pos), pos, toks.len() as int),
        moves_forward(tp_var(toks, b, pos), pos, toks.len() as int),
        moves_forward(tp_call(toks, b, pos), pos, toks.len() as int),
        moves_forward(tp_block(toks, b, pos), pos, toks.len() as int),
        moves_forward(tp_function(toks, b, pos), pos, toks.len() as int),
        list_moves_forward(tp_props(toks, b, pos), pos, toks.len() as int),
        list_moves_forward(tp_elems(toks, b, pos), pos, toks.len() as int),
        list_moves_forward(tp_args(toks, b, pos), pos, toks.len() as int),
        tp_params(toks, b, pos) matches Ok((_, q)) ==> pos <= q <= toks.len(),
        tp_block_items(toks, b, pos) matches Ok((_, q)) ==> pos <= q <= toks.len(),
{
    lemma_tp_value_progress(toks, b, pos);
    lemma_tp_var_progress(toks, b, pos);
    lemma_tp_call_progress(toks, b, pos);
    lemma_tp_block_progress(toks, b, pos);
    lemma_tp_function_progress(toks, b, pos);
    lemma_tp_props_progress(toks, b, pos);
    lemma_tp_elems_progress(toks, b, pos);
    lemma_tp_args_progress(toks, b, pos);
    lemma_tp_params_progress(toks, b, pos);
    lemma_tp_block_items_progress(toks, b, pos);
}

/// The syntax tree of a TypeScript token sequence: a root spanning the whole
/// source whose children are the top-level declarations; `Err(())` where
/// parsing would panic.
pub open spec fn ts_parse(toks: Seq<TypeScriptToken>, b: Seq<u8>) -> Result<SpecNode, ()> {
    match tp_items(toks, b, ts_skip_nl(toks, 0)) {
        Err(()) => Err(()),
        Ok(items) => Ok(SpecNode {
            kind: SyntaxKind::Root,
            span: Span { start: 0, end: b.len() as usize },
            name: None,
            children: items,
        }),
    }
}

/// Puts the nodes `cs` in front of the nodes of a list result that did not fail.
pub open spec fn tcons_list(
    cs: Seq<SpecNode>,
    r: Result<(Option<Seq<SpecNode>>, int), ()>,
) -> Result<(Option<Seq<SpecNode>>, int), ()> {
    match r {
        Ok((Some(rest), q)) => Ok((Some(cs + rest), q)),
        other => other,
    }
}

pub proof fn lemma_tcons_list_push(cs: Seq<SpecNode>, n: SpecNode, r: Result<(Option<Seq<SpecNode>>, int), ()>)
    ensures
        tcons_list(cs, tcons(n, r)) == tcons_list(cs.push(n), r),
{
    if let Ok((Some(rest), q)) = r {
        assert(cs + (seq![n] + rest) =~= cs.push(n) + rest);
    }
}

/// Puts the nodes `cs` in front of the nodes of a list result.
pub open spec fn tprepend(cs: Seq<SpecNode>, r: Result<(Seq<SpecNode>, int), ()>) -> Result<
    (Seq<SpecNode>, int),
    (),
> {
    match r {
        Ok((rest, q)) => Ok((cs + rest, q)),
        Err(()) => Err(()),
    }
}

pub proof fn lemma_tprepend_push(cs: Seq<SpecNode>, n: SpecNode, r: Result<(Seq<SpecNode>, int), ()>)
    ensures
        tprepend(cs, tcons_all(n, r)) == tprepend(cs.push(n), r),
{
    if let Ok((rest, q)) = r {
        assert(cs + (seq![n] + rest) =~= cs.push(n) + rest);
    }
}

pub struct TypeScriptSyntaxParser<'a> {
    tokens: &'a [TypeScriptToken],
    source: &'a str,
    current: usize,
}

impl<'a> TypeScriptSyntaxParser<'a> {
    pub closed spec fn spec_tokens(&self) -> Seq<TypeScriptToken> {
        self.tokens@
    }

    pub closed spec fn spec_source(&self) -> &'a str {
        self.source
    }

    pub closed spec fn spec_current(&self) -> usize {
        self.current
    }

    pub fn new(tokens: &'a [TypeScriptToken], source: &'a str) -> (p: Self)
        ensures
            p.spec_tokens() == tokens@,
            p.spec_source() == source,
            p.spec_current() == 0,
    {
        TypeScriptSyntaxParser { tokens, source, current: 0 }
    }

    /// Parses the top-level declarations into a root that spans the source.
    pub fn parse(self) -> (r: SyntaxNode)
        requires
            self.spec_current() == 0,
            ts_parse(self.spec_tokens(), self.spec_source().spec_bytes()) is Ok,
        ensures
            ts_parse(self.spec_tokens(), self.spec_source().spec_bytes()) == Ok::<SpecNode, ()>(node_view(r)),
    {
        let mut parser = self;
        let ghost toks = parser.tokens@;
        let ghost b = parser.source.spec_bytes();
        let mut children: Vec<SyntaxNode> = Vec::new();
        parser.skip_newlines();
        let ghost p0 = parser.current as int;
        assert(nodes_view(children@) =~= seq![]);
        assert(tp_items(toks, b, p0) matches Ok(all) && all == nodes_view(children@) + all);
        while !parser.is_at_end()
            invariant
                parser.tokens@ == toks,
                parser.source.spec_bytes() == b,
                parser.current <= toks.len(),
                p0 == ts_skip_nl(toks, 0),
                tp_items(toks, b, p0) matches Ok(all) && (tp_items(toks, b, parser.current as int) matches Ok(rest)
                    && all == nodes_view(children@) + rest),
            decreases toks.len() - parser.current,
        {
            let ghost cur = parser.current as int;
            let ghost before = children@;
            let ghost rest0 = tp_items(toks, b, cur).unwrap();
            match parser.parse_variable_declaration() {
                Some(node) => {
                    children.push(node);
                },
                None => {
                    match parser.parse_function_declaration() {
                        Some(node) => {
                            children.push(node);
                        },
                        None => {
                            parser.advance();
                        },
                    }
                },
            }
            let ghost q = parser.current as int;
            parser.skip_newlines();
            proof {
                if children@.len() > before.len() {
                    let n = children@.last();
                    assert(children@ =~= before.push(n));
                    assert(nodes_view(children@) =~= nodes_view(before).push(node_view(n)));
                    let rest = tp_items(toks, b, parser.current as int).unwrap();
                    assert(rest0 == seq![node_view(n)] + rest);
                    assert(nodes_view(before) + (seq![node_view(n)] + rest) =~= nodes_view(children@) + rest);
                } else {
                    assert(children@ =~= before);
                }
            }
        }
        let end = parser.source.len();
        let node = SyntaxNode { kind: SyntaxKind::Root, span: Span::new(0, end), name: None, children };
        proof {
            let all = tp_items(toks, b, p0).unwrap();
            assert(all == nodes_view(children@) + seq![]);
            assert(nodes_view(children@) + seq![] =~= nodes_view(children@));
        }
        node
    }

    fn parse_function_declaration(&mut self) -> (r: Option<SyntaxNode>)
        requires
            tp_function(old(self).tokens@, old(self).source.spec_bytes(), old(self).current as int) is Ok,
            old(self).current <= old(self).tokens@.len(),
        ensures
            final(self).tokens == old(self).tokens,
            final(self).source == old(self).source,
            old(self).current <= final(self).current <= final(self).tokens@.len(),
            r is Some ==> old(self).current < final(self).current,
            tp_function(old(self).tokens@, old(self).source.spec_bytes(), old(self).current as int)
                == Ok::<(Option<SpecNode>, int), ()>((opt_node_view(r), final(self).current as int)),
    {
        if !self.check(TypeScriptTokenKind::Function) {
            return None;
        }
        let start = self.advance().span.start;
        let name_token = match self.expect(TypeScriptTokenKind::Identifier) {
            Some(t) => t,
            None => return None,
        };
        let name = self.token_name(name_token.span);
        if self.expect(TypeScriptTokenKind::OpenParen).is_none() {
            return None;
        }
        let parameters = self.parse_function_parameters();
        if self.expect(TypeScriptTokenKind::CloseParen).is_none() {
            return None;
        }
        if self.check(TypeScriptTokenKind::Colon) {
            self.advance();
            if !self.is_at_end() {
                self.advance();
            }
        }
        let body = match self.parse_block() {
            Some(body) => body,
            None => return None,
        };
        let body_end = body.span.end;
        let mut children = parameters;
        let ghost ps = children@;
        children.push(body);
        assert(nodes_view(children@) =~= nodes_view(ps).push(node_view(body)));
        Some(SyntaxNode { kind: SyntaxKind::Function, span: Span::new(start, body_end), name: Some(name), children })
    }

    fn parse_function_parameters(&mut self) -> (r: Vec<SyntaxNode>)
        requires
            tp_params(old(self).tokens@, old(self).source.spec_bytes(), old(self).current as int) is Ok,
            old(self).current <= old(self).tokens@.len(),
        ensures
            final(self).tokens == old(self).tokens,
            final(self).source == old(self).source,
            old(self).current <= final(self).current <= final(self).tokens@.len(),
            tp_params(old(self).tokens@, old(self).source.spec_bytes(), old(self).current as int)
                == Ok::<(Seq<SpecNode>, int), ()>((nodes_view(r@), final(self).current as int)),
    {
        let ghost toks = self.tokens@;
        let ghost b = self.source.spec_bytes();
        let ghost c0 = self.current as int;
        let mut parameters: Vec<SyntaxNode> = Vec::new();
        assert(nodes_view(parameters@) =~= seq![]);
        while !self.is_at_end() && !self.check(TypeScriptTokenKind::CloseParen)
            invariant
                self.tokens@ == toks,
                self.tokens == old(self).tokens,
                self.source == old(self).source,
                self.source.spec_bytes() == b,
                c0 == old(self).current,
                c0 <= self.current <= toks.len(),
                tp_params(toks, b, self.current as int) is Ok,
                tp_params(toks, b, c0) == tprepend(nodes_view(parameters@), tp_params(toks, b, self.current as int)),
            decreases toks.len() - self.current,
        {
            let name_token = match self.expect(TypeScriptTokenKind::Identifier) {
                Some(t) => t,
                None => {
                    self.advance();
                    continue;
                },
            };
            let name = self.token_name(name_token.span);
            if self.check(TypeScriptTokenKind::Colon) {
                self.advance();
                if self.check(TypeScriptTokenKind::Identifier) {
                    self.advance();
                }
            }
            let param = Self::leaf_node(SyntaxKind::Property, name_token.span, Some(name));
            let ghost before = parameters@;
            parameters.push(param);
            assert(nodes_view(parameters@) =~= nodes_view(before).push(node_view(param)));
            if self.check(TypeScriptTokenKind::Comma) {
                self.advance();
            }
            proof {
                lemma_tprepend_push(nodes_view(before), node_view(param), tp_params(toks, b, self.current as int));
            }
        }
        proof {
            assert(nodes_view(parameters@) + seq![] =~= nodes_view(parameters@));
        }
        parameters
    }

    fn parse_variable_declaration(&mut self) -> (r: Option<SyntaxNode>)
        requires
            tp_var(old(self).tokens@, old(self).source.spec_bytes(), old(self).current as int) is Ok,
            old(self).current <= old(self).tokens@.len(),
        ensures
            final(self).tokens == old(self).tokens,
            final(self).source == old(self).source,
            old(self).current <= final(self).current <= final(self).tokens@.len(),
            r is Some ==> old(self).current < final(self).current,
            tp_var(old(self).tokens@, old(self).source.spec_bytes(), old(self).current as int)
                == Ok::<(Option<SpecNode>, int), ()>((opt_node_view(r), final(self).current as int)),
    {
        let kinds: [TypeScriptTokenKind; 3] = [
            TypeScriptTokenKind::Const,
            TypeScriptTokenKind::Let,
            TypeScriptTokenKind::Var,
        ];
        proof {
            assert(kinds@ =~= seq![TypeScriptTokenKind::Const, TypeScriptTokenKind::Let, TypeScriptTokenKind::Var]);
            if self.current < self.tokens@.len() {
                let k = self.tokens@[self.current as int].kind;
                if is_decl_keyword(k) {
                    if k == TypeScriptTokenKind::Const {
                        assert(kinds@[0] == k);
                    } else if k == TypeScriptTokenKind::Let {
                        assert(kinds@[1] == k);
                    } else {
                        assert(kinds@[2] == k);
                    }
                }
            }
        }
        if !self.check_any(&kinds) {
            return None;
        }
        self.advance();
        let name_token = match self.expect(TypeScriptTokenKind::Identifier) {
            Some(t) => t,
            None => return None,
        };
        let name = self.token_name(name_token.span);
        if self.expect(TypeScriptTokenKind::Equals).is_none() {
            return None;
        }
        let value = match self.parse_value() {
            Some(v) => v,
            None => return None,
        };
        let end = if self.check(TypeScriptTokenKind::Semicolon) {
            self.advance().span.end
        } else {
            value.span.end
        };
        let mut children: Vec<SyntaxNode> = Vec::new();
        children.push(value);
        assert(nodes_view(children@) =~= seq![node_view(value)]);
        Some(SyntaxNode { kind: SyntaxKind::Property, span: Span::new(name_token.span.start, end), name: Some(name), children })
    }

    fn parse_function_call(&mut self) -> (r: Option<SyntaxNode>)
        requires
            tp_call(old(self).tokens@, old(self).source.spec_bytes(), old(self).current as int) is Ok,
            old(self).current <= old(self).tokens@.len(),
        ensures
            final(self).tokens == old(self).tokens,
            final(self).source == old(self).source,
            old(self).current <= final(self).current <= final(self).tokens@.len(),
            r is Some ==> old(self).current < final(self).current,
            tp_call(old(self).tokens@, old(self).source.spec_bytes(), old(self).current as int)
                == Ok::<(Option<SpecNode>, int), ()>((opt_node_view(r), final(self).current as int)),
    {
        let ghost toks = self.tokens@;
        let ghost b = self.source.spec_bytes();
        let ghost c0 = self.current as int;
        let start = match self.current_token() {
            Some(t) => t.span.start,
            None => return None,
        };
        let first = match self.expect(TypeScriptTokenKind::Identifier) {
            Some(t) => t,
            None => return None,
        };
        let mut name = self.token_name(first.span);
        while self.check(TypeScriptTokenKind::Dot)
            invariant
                self.tokens@ == toks,
                self.tokens == old(self).tokens,
                self.source == old(self).source,
                self.source.spec_bytes() == b,
                c0 == old(self).current,
                c0 < self.current <= toks.len(),
                at_kind(toks, c0, TypeScriptTokenKind::Identifier),
                sliceable(toks, b, c0),
                start == toks[c0].span.start,
                tp_dots(toks, b, c0 + 1, token_text(toks, b, c0)) == tp_dots(toks, b, self.current as int, name@),
                tp_dots(toks, b, self.current as int, name@) is Ok,
            decreases toks.len() - self.current,
        {
            let ghost cur = self.current as int;
            self.advance();
            let identifier = match self.expect(TypeScriptTokenKind::Identifier) {
                Some(t) => t,
                None => {
                    assert(tp_dots(toks, b, cur, name@) == Ok::<(Option<Seq<char>>, int), ()>((None, cur + 1)));
                    return None;
                },
            };
            name.append(".");
            name.append(slice_str(self.source, identifier.span.start, identifier.span.end));
        }
        if self.expect(TypeScriptTokenKind::OpenParen).is_none() {
            return None;
        }
        let mut arguments: Vec<SyntaxNode> = Vec::new();
        self.skip_newlines();
        let ghost p1 = self.current as int;
        let ghost call = tclose(toks, SyntaxKind::Call, start, Some(name@), TypeScriptTokenKind::CloseParen, tp_args(toks, b, p1));
        assert(tp_call(toks, b, c0) == call);
        assert(nodes_view(arguments@) =~= seq![]);
        loop
            invariant_except_break
                tp_args(toks, b, p1) == tcons_list(nodes_view(arguments@), tp_args(toks, b, self.current as int)),
                tp_args(toks, b, self.current as int) is Ok,
            invariant
                self.tokens@ == toks,
                self.tokens == old(self).tokens,
                self.source == old(self).source,
                self.source.spec_bytes() == b,
                c0 == old(self).current,
                c0 < p1 <= self.current <= toks.len(),
                tp_args(toks, b, p1) is Ok,
                tp_call(toks, b, c0) == call,
                call == tclose(toks, SyntaxKind::Call, start, Some(name@), TypeScriptTokenKind::CloseParen, tp_args(toks, b, p1)),
            ensures
                self.tokens@ == toks,
                self.tokens == old(self).tokens,
                self.source == old(self).source,
                self.source.spec_bytes() == b,
                c0 < p1 <= self.current <= toks.len(),
                tp_call(toks, b, c0) == call,
                call == tclose(toks, SyntaxKind::Call, start, Some(name@), TypeScriptTokenKind::CloseParen, tp_args(toks, b, p1)),
                tp_args(toks, b, p1) == Ok::<(Option<Seq<SpecNode>>, int), ()>((Some(nodes_view(arguments@)), self.current as int)),
            decreases toks.len() - self.current,
        {
            if self.is_at_end() || self.check(TypeScriptTokenKind::CloseParen) {
                assert(nodes_view(arguments@) + seq![] =~= nodes_view(arguments@));
                break;
            }
            let ghost cur = self.current as int;
            let argument = match self.parse_value() {
                Some(v) => v,
                None => return None,
            };
            let ghost before = arguments@;
            arguments.push(argument);
            assert(nodes_view(arguments@) =~= nodes_view(before).push(node_view(argument)));
            self.skip_newlines();
            if self.check(TypeScriptTokenKind::Comma) {
                self.advance();
                self.skip_newlines();
                proof {
                    lemma_tcons_list_push(nodes_view(before), node_view(argument), tp_args(toks, b, self.current as int));
                }
            } else {
                assert(nodes_view(before) + seq![node_view(argument)] =~= nodes_view(arguments@));
                break;
            }
        }
        let close_paren = match self.expect(TypeScriptTokenKind::CloseParen) {
            Some(t) => t,
            None => return None,
        };
        let end = close_paren.span.end;
        Some(SyntaxNode { kind: SyntaxKind::Call, span: Span::new(start, end), name: Some(name), children: arguments })
    }

    fn parse_block(&mut self) -> (r: Option<SyntaxNode>)
        requires
            tp_block(old(self).tokens@, old(self).source.spec_bytes(), old(self).current as int) is Ok,
            old(self).current <= old(self).tokens@.len(),
        ensures
            final(self).tokens == old(self).tokens,
            final(self).source == old(self).source,
            old(self).current <= final(self).current <= final(self).tokens@.len(),
            r is Some ==> old(self).current < final(self).current,
            tp_block(old(self).tokens@, old(self).source.spec_bytes(), old(self).current as int)
                == Ok::<(Option<SpecNode>, int), ()>((opt_node_view(r), final(self).current as int)),
    {
        let ghost toks = self.tokens@;
        let ghost b = self.source.spec_bytes();
        let ghost c0 = self.current as int;
        let start = match self.expect(TypeScriptTokenKind::OpenBrace) {
            Some(t) => t.span.start,
            None => return None,
        };
        let mut children: Vec<SyntaxNode> = Vec::new();
        self.skip_newlines();
        let ghost p1 = self.current as int;
        assert(nodes_view(children@) =~= seq![]);
        while !self.is_at_end() && !self.check(TypeScriptTokenKind::CloseBrace)
            invariant
                self.tokens@ == toks,
                self.tokens == old(self).tokens,
                self.source == old(self).source,
                self.source.spec_bytes() == b,
                c0 == old(self).current,
                c0 < p1 <= self.current <= toks.len(),
                p1 == ts_skip_nl(toks, c0 + 1),
                start == toks[c0].span.start,
                at_kind(toks, c0, TypeScriptTokenKind::OpenBrace),
                tp_block_items(toks, b, self.current as int) is Ok,
                tp_block_items(toks, b, p1) == tprepend(nodes_view(children@), tp_block_items(toks, b, self.current as int)),
            decreases toks.len() - self.current,
        {
            let ghost before = children@;
            match self.parse_variable_declaration() {
                Some(node) => {
                    children.push(node);
                },
                None => {
                    match self.parse_function_call() {
                        Some(node) => {
                            children.push(node);
                        },
                        None => {
                            self.advance();
                        },
                    }
                },
            }
            self.skip_newlines();
            proof {
                if children@.len() > before.len() {
                    let n = children@.last();
                    assert(children@ =~= before.push(n));
                    assert(nodes_view(children@) =~= nodes_view(before).push(node_view(n)));
                    lemma_tprepend_push(nodes_view(before), node_view(n), tp_block_items(toks, b, self.current as int));
                } else {
                    assert(children@ =~= before);
                }
            }
        }
        proof {
            assert(nodes_view(children@) + seq![] =~= nodes_view(children@));
        }
        let end = match self.expect(TypeScriptTokenKind::CloseBrace) {
            Some(t) => t.span.end,
            None => return None,
        };
        Some(SyntaxNode { kind: SyntaxKind::Block, span: Span::new(start, end), name: None, children })
    }

    fn parse_value(&mut self) -> (r: Option<SyntaxNode>)
        requires
            tp_value(old(self).tokens@, old(self).source.spec_bytes(), old(self).current as int) is Ok,
            old(self).current <= old(self).tokens@.len(),
        ensures
            final(self).tokens == old(self).tokens,
            final(self).source == old(self).source,
            old(self).current <= final(self).current <= final(self).tokens@.len(),
            r is Some ==> old(self).current < final(self).current,
            tp_value(old(self).tokens@, old(self).source.spec_bytes(), old(self).current as int)
                == Ok::<(Option<SpecNode>, int), ()>((opt_node_view(r), final(self).current as int)),
        decreases old(self).tokens@.len() - old(self).current, 2int,
    {
        let token = match self.current_token() {
            Some(t) => *t,
            None => return None,
        };
        match token.kind {
            TypeScriptTokenKind::String => {
                self.advance();
                Some(Self::leaf_node(SyntaxKind::String, token.span, None))
            },
            TypeScriptTokenKind::Number => {
                self.advance();
                Some(Self::leaf_node(SyntaxKind::Number, token.span, None))
            },
            TypeScriptTokenKind::Boolean => {
                self.advance();
                Some(Self::leaf_node(SyntaxKind::Boolean, token.span, None))
            },
            TypeScriptTokenKind::OpenBrace => self.parse_object(),
            TypeScriptTokenKind::OpenBracket => self.parse_array(),
            TypeScriptTokenKind::Identifier => {
                self.advance();
                let name = self.token_name(token.span);
                Some(Self::leaf_node(SyntaxKind::Identifier, token.span, Some(name)))
            },
            _ => None,
        }
    }

    fn parse_object(&mut self) -> (r: Option<SyntaxNode>)
        requires
            tp_object(old(self).tokens@, old(self).source.spec_bytes(), old(self).current as int) is Ok,
            old(self).current <= old(self).tokens@.len(),
        ensures
            final(self).tokens == old(self).tokens,
            final(self).source == old(self).source,
            old(self).current <= final(self).current <= final(self).tokens@.len(),
            r is Some ==> old(self).current < final(self).current,
            tp_object(old(self).tokens@, old(self).source.spec_bytes(), old(self).current as int)
                == Ok::<(Option<SpecNode>, int), ()>((opt_node_view(r), final(self).current as int)),
        decreases old(self).tokens@.len() - old(self).current, 1int,
    {
        let ghost toks = self.tokens@;
        let ghost b = self.source.spec_bytes();
        let ghost c0 = self.current as int;
        let start = match self.expect(TypeScriptTokenKind::OpenBrace) {
            Some(t) => t.span.start,
            None => return None,
        };
        let mut children: Vec<SyntaxNode> = Vec::new();
        self.skip_newlines();
        let ghost p1 = self.current as int;
        assert(nodes_view(children@) =~= seq![]);
        while !self.is_at_end() && !self.check(TypeScriptTokenKind::CloseBrace)
            invariant
                self.tokens@ == toks,
                self.tokens == old(self).tokens,
                self.source == old(self).source,
                self.source.spec_bytes() == b,
                c0 == old(self).current,
                c0 < p1 <= self.current <= toks.len(),
                p1 == ts_skip_nl(toks, c0 + 1),
                tp_object(toks, b, c0) == tclose(toks, SyntaxKind::Object, start, None, TypeScriptTokenKind::CloseBrace, tp_props(toks, b, p1)),
                start == toks[c0].span.start,
                tp_props(toks, b, p1) is Ok,
                tp_props(toks, b, p1) == tcons_list(nodes_view(children@), tp_props(toks, b, self.current as int)),
            decreases toks.len() - self.current,
        {
            let ghost cur = self.current as int;
            let name_token = match self.expect(TypeScriptTokenKind::Identifier) {
                Some(t) => t,
                None => return None,
            };
            let name = self.token_name(name_token.span);
            if self.expect(TypeScriptTokenKind::Colon).is_none() {
                return None;
            }
            let value = match self.parse_value() {
                Some(v) => v,
                None => return None,
            };
            let end = value.span.end;
            let mut kids: Vec<SyntaxNode> = Vec::new();
            kids.push(value);
            let ghost vv = node_view(kids@[0]);
            assert(nodes_view(kids@) =~= seq![vv]);
            let prop = SyntaxNode { kind: SyntaxKind::Property, span: Span::new(name_token.span.start, end), name: Some(name), children: kids };
            let ghost before = children@;
            children.push(prop);
            assert(nodes_view(children@) =~= nodes_view(before).push(node_view(prop)));
            self.skip_newlines();
            if self.check(TypeScriptTokenKind::Comma) {
                self.advance();
                self.skip_newlines();
            }
            proof {
                lemma_tcons_list_push(nodes_view(before), node_view(prop), tp_props(toks, b, self.current as int));
            }
        }
        let end = match self.expect(TypeScriptTokenKind::CloseBrace) {
            Some(t) => t.span.end,
            None => return None,
        };
        Some(SyntaxNode { kind: SyntaxKind::Object, span: Span::new(start, end), name: None, children })
    }

    fn parse_array(&mut self) -> (r: Option<SyntaxNode>)
        requires
            tp_array(old(self).tokens@, old(self).source.spec_bytes(), old(self).current as int) is Ok,
            old(self).current <= old(self).tokens@.len(),
        ensures
            final(self).tokens == old(self).tokens,
            final(self).source == old(self).source,
            old(self).current <= final(self).current <= final(self).tokens@.len(),
            r is Some ==> old(self).current < final(self).current,
            tp_array(old(self).tokens@, old(self).source.spec_bytes(), old(self).current as int)
                == Ok::<(Option<SpecNode>, int), ()>((opt_node_view(r), final(self).current as int)),
        decreases old(self).tokens@.len() - old(self).current, 1int,
    {
        let ghost toks = self.tokens@;
        let ghost b = self.source.spec_bytes();
        let ghost c0 = self.current as int;
        let start = match self.expect(TypeScriptTokenKind::OpenBracket) {
            Some(t) => t.span.start,
            None => return None,
        };
        let mut children: Vec<SyntaxNode> = Vec::new();
        self.skip_newlines();
        let ghost p1 = self.current as int;
        assert(nodes_view(children@) =~= seq![]);
        while !self.is_at_end() && !self.check(TypeScriptTokenKind::CloseBracket)
            invariant
                self.tokens@ == toks,
                self.tokens == old(self).tokens,
                self.source == old(self).source,
                self.source.spec_bytes() == b,
                c0 == old(self).current,
                c0 < p1 <= self.current <= toks.len(),
                p1 == ts_skip_nl(toks, c0 + 1),
                tp_array(toks, b, c0) == tclose(toks, SyntaxKind::Array, start, None, TypeScriptTokenKind::CloseBracket, tp_elems(toks, b, p1)),
                start == toks[c0].span.start,
                tp_elems(toks, b, p1) is Ok,
                tp_elems(toks, b, p1) == tcons_list(nodes_view(children@), tp_elems(toks, b, self.current as int)),
            decreases toks.len() - self.current,
        {
            let value = match self.parse_value() {
                Some(v) => v,
                None => return None,
            };
            let ghost before = children@;
            children.push(value);
            assert(nodes_view(children@) =~= nodes_view(before).push(node_view(value)));
            self.skip_newlines();
            if self.check(TypeScriptTokenKind::Comma) {
                self.advance();
                self.skip_newlines();
            }
            proof {
                lemma_tcons_list_push(nodes_view(before), node_view(value), tp_elems(toks, b, self.current as int));
            }
        }
        let end = match self.expect(TypeScriptTokenKind::CloseBracket) {
            Some(t) => t.span.end,
            None => return None,
        };
        Some(SyntaxNode { kind: SyntaxKind::Array, span: Span::new(start, end), name: None, children })
    }

    fn leaf_node(kind: SyntaxKind, span: Span, name: Option<String>) -> (n: SyntaxNode)
        ensures
            node_view(n) == leaf(kind, span, crate::syntax::opt_string_view(name)),
    {
        let children: Vec<SyntaxNode> = Vec::new();
        assert(nodes_view(children@) =~= seq![]);
        SyntaxNode { kind, span, name, children }
    }

    /// The source text of a token's span, as a name.
    fn token_name(&self, span: Span) -> (s: String)
        requires
            is_slice(self.source.spec_bytes(), span.start as int, span.end as int),
        ensures
            s@ == text_of(self.source.spec_bytes(), span.start as int, span.end as int),
    {
        String::from_str(slice_str(self.source, span.start, span.end))
    }

    fn current_token(&self) -> (t: Option<&TypeScriptToken>)
        ensures
            match t {
                Some(t) => self.current < self.tokens@.len() && *t == self.tokens@[self.current as int],
                None => self.current >= self.tokens@.len(),
            },
    {
        if self.current < self.tokens.len() {
            Some(&self.tokens[self.current])
        } else {
            None
        }
    }

    fn advance(&mut self) -> (t: TypeScriptToken)
        requires
            old(self).current < old(self).tokens@.len(),
        ensures
            t == old(self).tokens@[old(self).current as int],
            final(self).current == old(self).current + 1,
            final(self).tokens == old(self).tokens,
            final(self).source == old(self).source,
    {
        let token = self.tokens[self.current];
        self.current += 1;
        token
    }

    fn check(&self, kind: TypeScriptTokenKind) -> (b: bool)
        ensures
            b == at_kind(self.tokens@, self.current as int, kind),
    {
        match self.current_token() {
            Some(t) => t.kind == kind,
            None => false,
        }
    }

    fn check_any(&self, kinds: &[TypeScriptTokenKind]) -> (b: bool)
        ensures
            b == (self.current < self.tokens@.len() && kinds@.contains(self.tokens@[self.current as int].kind)),
    {
        let token = match self.current_token() {
            Some(t) => t,
            None => return false,
        };
        let mut i: usize = 0;
        while i < kinds.len()
            invariant
                i <= kinds@.len(),
                self.current < self.tokens@.len(),
                token.kind == self.tokens@[self.current as int].kind,
                forall|j: int| 0 <= j < i ==> kinds@[j] != token.kind,
            decreases kinds@.len() - i,
        {
            if kinds[i] == token.kind {
                assert(kinds@[i as int] == token.kind);
                return true;
            }
            i += 1;
        }
        false
    }

    fn expect(&mut self, kind: TypeScriptTokenKind) -> (t: Option<TypeScriptToken>)
        ensures
            final(self).tokens == old(self).tokens,
            final(self).source == old(self).source,
            match t {
                Some(t) => at_kind(old(self).tokens@, old(self).current as int, kind)
                    && t == old(self).tokens@[old(self).current as int]
                    && final(self).current == old(self).current + 1,
                None => !at_kind(old(self).tokens@, old(self).current as int, kind)
                    && final(self).current == old(self).current,
            },
    {
        if !self.check(kind) {
            return None;
        }
        Some(self.advance())
    }

    fn skip_newlines(&mut self)
        requires
            old(self).current <= old(self).tokens@.len(),
        ensures
            final(self).current == ts_skip_nl(old(self).tokens@, old(self).current as int),
            old(self).current <= final(self).current <= final(self).tokens@.len(),
            final(self).tokens == old(self).tokens,
            final(self).source == old(self).source,
    {
        while self.check(TypeScriptTokenKind::Newline)
            invariant
                self.tokens == old(self).tokens,
                self.source == old(self).source,
                ts_skip_nl(self.tokens@, self.current as int) == ts_skip_nl(old(self).tokens@, old(self).current as int),
                old(self).current <= self.current <= self.tokens@.len(),
            decreases self.tokens@.len() - self.current,
        {
            self.advance();
        }
    }

    fn is_at_end(&self) -> (b: bool)
        ensures
            b == (self.current >= self.tokens@.len()),
    {
        self.current >= self.tokens.len()
    }
}

} // verus!

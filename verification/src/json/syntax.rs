//! Builds a syntax tree from JSON tokens.
use vstd::prelude::*;
use vstd::string::{StringExecFns, StringSliceAdditionalSpecFns};
use crate::error::{ParseError, ParseErrorKind, SpecParseError};
use crate::json::token::{kind_name, Token, TokenKind};
use crate::json::lexer::{json_spans_in_order, sliceable_token};
use crate::span::Span;
use crate::syntax::{leaf, lemma_node_view, node_view, nodes_view, opt_string_view, spans_sliceable, SpecNode, SyntaxKind, SyntaxNode};
use crate::text::{is_slice, slice_str, text_of};

verus! {

broadcast use {vstd::seq::group_seq_axioms, lemma_node_view};

/// What `serde_json` decodes a JSON string literal (quotes included) to, as a
/// Rust `String`; `None` where it rejects the text.
pub uninterp spec fn json_string_literal(text: Seq<char>) -> Option<Seq<char>>;

/// Calls `serde_json::from_str::<String>` on `text` and keeps the value, or
/// `None` for any error. Its result is named, not described: the decoding
/// of escapes is `serde_json`'s.
#[verifier::external_body]
fn decode_string_literal(text: &str) -> (r: Option<String>)
    ensures
        opt_string_view(r) == json_string_literal(text@),
{
    serde_json::from_str::<String>(text).ok()
}

/// How parsing stops early: with an error, or where slicing the source at a
/// key's span would panic. The parsing functions below also give `Panic`
/// where a position would not move forward, which keeps their recursion well
/// founded; `lemma_json_progress` shows that this never happens.
pub enum JsonHalt {
    Error(SpecParseError),
    Panic,
}

pub open spec fn unexpected(message: Seq<char>, span: Span) -> JsonHalt {
    JsonHalt::Error(
        SpecParseError { kind: ParseErrorKind::UnexpectedToken, message, span: Some(span) },
    )
}

pub open spec fn end_of_input(message: Seq<char>) -> JsonHalt {
    JsonHalt::Error(
        SpecParseError { kind: ParseErrorKind::UnexpectedEndOfInput, message, span: None },
    )
}

pub open spec fn invalid_key() -> JsonHalt {
    JsonHalt::Error(
        SpecParseError {
            kind: ParseErrorKind::InvalidSyntax,
            message: "invalid object key"@,
            span: None,
        },
    )
}

pub open spec fn expected_eoi_message(kind: TokenKind) -> Seq<char> {
    "expected "@ + kind_name(kind) + ", found end of input"@
}

pub open spec fn expected_found_message(kind: TokenKind, found: TokenKind) -> Seq<char> {
    "expected "@ + kind_name(kind) + ", found "@ + kind_name(found)
}

/// The token at `pos` when it has kind `kind`, else the error `expect` reports.
pub open spec fn jp_expect(toks: Seq<Token>, pos: int, kind: TokenKind) -> Result<Token, JsonHalt> {
    if pos < 0 || pos >= toks.len() {
        Err(end_of_input(expected_eoi_message(kind)))
    } else if toks[pos].kind != kind {
        Err(unexpected(expected_found_message(kind, toks[pos].kind), toks[pos].span))
    } else {
        Ok(toks[pos])
    }
}

/// The node kind of a scalar token.
pub open spec fn scalar_kind(kind: TokenKind) -> Option<SyntaxKind> {
    match kind {
        TokenKind::String => Some(SyntaxKind::String),
        TokenKind::Number => Some(SyntaxKind::Number),
        TokenKind::True => Some(SyntaxKind::Boolean),
        TokenKind::False => Some(SyntaxKind::Boolean),
        TokenKind::Null => Some(SyntaxKind::Null),
        _ => None,
    }
}

/// Prepends `prefix` to the nodes of a successful result.
pub open spec fn prepend(prefix: Seq<SpecNode>, r: Result<(Seq<SpecNode>, int), JsonHalt>) -> Result<
    (Seq<SpecNode>, int),
    JsonHalt,
> {
    match r {
        Ok((rest, q)) => Ok((prefix + rest, q)),
        Err(h) => Err(h),
    }
}

pub proof fn lemma_prepend_prepend(
    a: Seq<SpecNode>,
    b: Seq<SpecNode>,
    r: Result<(Seq<SpecNode>, int), JsonHalt>,
)
    ensures
        prepend(a, prepend(b, r)) == prepend(a + b, r),
{
    match r {
        Ok((rest, q)) => {
            assert(a + (b + rest) =~= (a + b) + rest);
        },
        Err(_) => {},
    }
}

/// The node a successful list of children and a closing token make.
pub open spec fn close_node(
    kind: SyntaxKind,
    start: usize,
    name: Option<Seq<char>>,
    toks: Seq<Token>,
    r: Result<(Seq<SpecNode>, int), JsonHalt>,
) -> Result<(SpecNode, int), JsonHalt> {
    match r {
        Err(h) => Err(h),
        Ok((children, p)) => Ok(
            (SpecNode { kind, span: Span { start, end: toks[p].span.end }, name, children }, p + 1),
        ),
    }
}

/// The value that starts at token `pos`, named `name`, and the position after it.
pub open spec fn jp_value(toks: Seq<Token>, b: Seq<u8>, pos: int, name: Option<Seq<char>>) -> Result<
    (SpecNode, int),
    JsonHalt,
>
    decreases toks.len() - pos, 2int,
{
    if pos < 0 || pos >= toks.len() {
        Err(end_of_input("expected value, found end of input"@))
    } else {
        let t = toks[pos];
        if t.kind == TokenKind::LeftBrace {
            jp_object(toks, b, pos, name)
        } else if t.kind == TokenKind::LeftBracket {
            jp_array(toks, b, pos, name)
        } else {
            match scalar_kind(t.kind) {
                Some(k) => Ok((leaf(k, t.span, name), pos + 1)),
                None => Err(unexpected("expected value, found "@ + kind_name(t.kind), t.span)),
            }
        }
    }
}

/// The object that starts at token `pos`.
pub open spec fn jp_object(toks: Seq<Token>, b: Seq<u8>, pos: int, name: Option<Seq<char>>) -> Result<
    (SpecNode, int),
    JsonHalt,
>
    decreases toks.len() - pos, 1int,
{
    match jp_expect(toks, pos, TokenKind::LeftBrace) {
        Err(h) => Err(h),
        Ok(open) => {
            let start = open.span.start;
            if pos + 1 < toks.len() && toks[pos + 1].kind == TokenKind::RightBrace {
                Ok(
                    (
                        SpecNode {
                            kind: SyntaxKind::Object,
                            span: Span { start, end: toks[pos + 1].span.end },
                            name,
                            children: seq![],
                        },
                        pos + 2,
                    ),
                )
            } else {
                close_node(SyntaxKind::Object, start, name, toks, jp_members(toks, b, pos + 1))
            }
        },
    }
}

/// The members `key: value, ...` from token `pos` on, and the position of the
/// closing brace.
pub open spec fn jp_members(toks: Seq<Token>, b: Seq<u8>, pos: int) -> Result<
    (Seq<SpecNode>, int),
    JsonHalt,
>
    decreases toks.len() - pos, 0int,
{
    match jp_expect(toks, pos, TokenKind::String) {
        Err(h) => Err(h),
        Ok(kt) => if !is_slice(b, kt.span.start as int, kt.span.end as int) {
            Err(JsonHalt::Panic)
        } else {
            match json_string_literal(text_of(b, kt.span.start as int, kt.span.end as int)) {
                None => Err(invalid_key()),
                Some(key) => match jp_expect(toks, pos + 1, TokenKind::Colon) {
                    Err(h) => Err(h),
                    Ok(_) => match jp_value(toks, b, pos + 2, Some(key)) {
                        Err(h) => Err(h),
                        Ok((v, p)) => if p <= pos + 2 || p > toks.len() {
                            Err(JsonHalt::Panic)
                        } else if p < toks.len() && toks[p].kind == TokenKind::RightBrace {
                            Ok((seq![v], p))
                        } else {
                            match jp_expect(toks, p, TokenKind::Comma) {
                                Err(h) => Err(h),
                                Ok(_) => prepend(seq![v], jp_members(toks, b, p + 1)),
                            }
                        },
                    },
                },
            }
        },
    }
}

/// The array that starts at token `pos`.
pub open spec fn jp_array(toks: Seq<Token>, b: Seq<u8>, pos: int, name: Option<Seq<char>>) -> Result<
    (SpecNode, int),
    JsonHalt,
>
    decreases toks.len() - pos, 1int,
{
    match jp_expect(toks, pos, TokenKind::LeftBracket) {
        Err(h) => Err(h),
        Ok(open) => {
            let start = open.span.start;
            if pos + 1 < toks.len() && toks[pos + 1].kind == TokenKind::RightBracket {
                Ok(
                    (
                        SpecNode {
                            kind: SyntaxKind::Array,
                            span: Span { start, end: toks[pos + 1].span.end },
                            name,
                            children: seq![],
                        },
                        pos + 2,
                    ),
                )
            } else {
                close_node(SyntaxKind::Array, start, name, toks, jp_elements(toks, b, pos + 1))
            }
        },
    }
}

/// The elements `value, ...` from token `pos` on, and the position of the
/// closing bracket.
pub open spec fn jp_elements(toks: Seq<Token>, b: Seq<u8>, pos: int) -> Result<
    (Seq<SpecNode>, int),
    JsonHalt,
>
    decreases toks.len() - pos, 3int,
{
    if pos < 0 || pos > toks.len() {
        Err(JsonHalt::Panic)
    } else {
        match jp_value(toks, b, pos, None) {
            Err(h) => Err(h),
            Ok((v, p)) => if p <= pos || p > toks.len() {
                Err(JsonHalt::Panic)
            } else if p < toks.len() && toks[p].kind == TokenKind::RightBracket {
                Ok((seq![v], p))
            } else {
                match jp_expect(toks, p, TokenKind::Comma) {
                    Err(h) => Err(h),
                    Ok(_) => prepend(seq![v], jp_elements(toks, b, p + 1)),
                }
            },
        }
    }
}

/// The syntax tree of a JSON token sequence: one value, and nothing after it.
pub open spec fn json_parse(toks: Seq<Token>, b: Seq<u8>) -> Result<SpecNode, JsonHalt> {
    match jp_value(toks, b, 0, None) {
        Err(h) => Err(h),
        Ok((root, p)) => if p < toks.len() {
            Err(unexpected("unexpected token after root value: "@ + kind_name(toks[p].kind), toks[p].span))
        } else {
            Ok(root)
        },
    }
}

proof fn lemma_jp_value_progress(toks: Seq<Token>, b: Seq<u8>, pos: int, name: Option<Seq<char>>)
    requires
        0 <= pos,
    ensures
        jp_value(toks, b, pos, name) matches Ok((v, p)) ==> pos < p <= toks.len(),
    decreases toks.len() - pos, 2int,
{
    if pos < toks.len() {
        if toks[pos].kind == TokenKind::LeftBrace {
            lemma_jp_object_progress(toks, b, pos, name);
        } else if toks[pos].kind == TokenKind::LeftBracket {
            lemma_jp_array_progress(toks, b, pos, name);
        }
    }
}

proof fn lemma_jp_object_progress(toks: Seq<Token>, b: Seq<u8>, pos: int, name: Option<Seq<char>>)
    requires
        0 <= pos,
    ensures
        jp_object(toks, b, pos, name) matches Ok((v, p)) ==> pos < p <= toks.len(),
    decreases toks.len() - pos, 1int,
{
    if jp_expect(toks, pos, TokenKind::LeftBrace) is Ok {
        lemma_jp_members_progress(toks, b, pos + 1);
    }
}

proof fn lemma_jp_members_progress(toks: Seq<Token>, b: Seq<u8>, pos: int)
    requires
        0 <= pos,
    ensures
        jp_members(toks, b, pos) matches Ok((cs, p)) ==> pos <= p < toks.len(),
    decreases toks.len() - pos, 0int,
{
    if let Ok(kt) = jp_expect(toks, pos, TokenKind::String) {
        if is_slice(b, kt.span.start as int, kt.span.end as int) {
            if let Some(key) = json_string_literal(text_of(b, kt.span.start as int, kt.span.end as int)) {
                if jp_expect(toks, pos + 1, TokenKind::Colon) is Ok {
                    lemma_jp_value_progress(toks, b, pos + 2, Some(key));
                    if let Ok((v, p)) = jp_value(toks, b, pos + 2, Some(key)) {
                        if !(p < toks.len() && toks[p].kind == TokenKind::RightBrace) && jp_expect(
                            toks,
                            p,
                            TokenKind::Comma,
                        ) is Ok {
                            lemma_jp_members_progress(toks, b, p + 1);
                        }
                    }
                }
            }
        }
    }
}

proof fn lemma_jp_array_progress(toks: Seq<Token>, b: Seq<u8>, pos: int, name: Option<Seq<char>>)
    requires
        0 <= pos,
    ensures
        jp_array(toks, b, pos, name) matches Ok((v, p)) ==> pos < p <= toks.len(),
    decreases toks.len() - pos, 1int,
{
    if jp_expect(toks, pos, TokenKind::LeftBracket) is Ok {
        lemma_jp_elements_progress(toks, b, pos + 1);
    }
}

proof fn lemma_jp_elements_progress(toks: Seq<Token>, b: Seq<u8>, pos: int)
    requires
        0 <= pos,
    ensures
        jp_elements(toks, b, pos) matches Ok((cs, p)) ==> pos <= p < toks.len(),
    decreases toks.len() - pos, 3int,
{
    if pos <= toks.len() {
        lemma_jp_value_progress(toks, b, pos, None);
        if let Ok((v, p)) = jp_value(toks, b, pos, None) {
            if !(p < toks.len() && toks[p].kind == TokenKind::RightBracket) && jp_expect(toks, p, TokenKind::Comma) is Ok {
                lemma_jp_elements_progress(toks, b, p + 1);
            }
        }
    }
}

/// Parsing a JSON value moves forward by at least one token and stays within
/// the tokens, and a list of members or elements ends on a token; so no
/// parsing result is a `Panic` for want of progress.
pub proof fn lemma_json_progress(toks: Seq<Token>, b: Seq<u8>, pos: int, name: Option<Seq<char>>)
    requires
        0 <= pos,
    ensures
        jp_value(toks, b, pos, name) matches Ok((v, p)) ==> pos < p <= toks.len(),
        jp_members(toks, b, pos) matches Ok((cs, p)) ==> pos <= p < toks.len(),
        jp_elements(toks, b, pos) matches Ok((cs, p)) ==> pos <= p < toks.len(),
{
    lemma_jp_value_progress(toks, b, pos, name);
    lemma_jp_members_progress(toks, b, pos);
    lemma_jp_elements_progress(toks, b, pos);
}

/// Every node of the tree `n` covers a range that starts no later than it
/// ends, and its children lie inside it, one after another without overlap.
pub open spec fn spans_nested(n: SpecNode) -> bool
    decreases n,
{
    &&& n.span.start <= n.span.end
    &&& forall|i: int|
        0 <= i < n.children.len() ==> n.span.start <= (#[trigger] n.children[i]).span.start
            && n.children[i].span.end <= n.span.end
    &&& forall|i: int, j: int|
        0 <= i < j < n.children.len() ==> (#[trigger] n.children[i]).span.end <= (#[trigger] n.children[j]).span.start
    &&& forall|i: int| 0 <= i < n.children.len() ==> spans_nested(#[trigger] n.children[i])
}

/// The nodes `cs` are nested, lie in order without overlap, and lie within
/// `lo..hi`.
pub open spec fn list_nested(cs: Seq<SpecNode>, lo: int, hi: int) -> bool {
    &&& forall|i: int| 0 <= i < cs.len() ==> spans_nested(#[trigger] cs[i]) && lo <= cs[i].span.start
        && cs[i].span.end <= hi
    &&& forall|i: int, j: int| 0 <= i < j < cs.len() ==> (#[trigger] cs[i]).span.end <= (#[trigger] cs[j]).span.start
}

proof fn lemma_list_cons(v: SpecNode, rest: Seq<SpecNode>, lo: int, mid: int, hi: int)
    requires
        spans_nested(v),
        lo <= v.span.start,
        v.span.end <= mid,
        list_nested(rest, mid, hi),
        mid <= hi,
    ensures
        list_nested(seq![v] + rest, lo, hi),
{
    let cs = seq![v] + rest;
    assert forall|i: int| 0 < i < cs.len() implies #[trigger] cs[i] == rest[i - 1] by {}
    assert forall|i: int, j: int| 0 <= i < j < cs.len() implies (#[trigger] cs[i]).span.end <= (#[trigger] cs[j]).span.start by {
        assert(cs[j] == rest[j - 1]);
        if i > 0 {
            assert(cs[i] == rest[i - 1]);
        }
    }
}

proof fn lemma_jp_value_spans(toks: Seq<Token>, b: Seq<u8>, pos: int, name: Option<Seq<char>>)
    requires
        0 <= pos,
        json_spans_in_order(toks, b.len() as int),
    ensures
        jp_value(toks, b, pos, name) matches Ok((v, p)) ==> spans_nested(v) && v.span.start == toks[pos].span.start
            && v.span.end == toks[p - 1].span.end,
    decreases toks.len() - pos, 2int,
{
    lemma_jp_value_progress(toks, b, pos, name);
    if pos < toks.len() {
        if toks[pos].kind == TokenKind::LeftBrace {
            lemma_jp_object_spans(toks, b, pos, name);
        } else if toks[pos].kind == TokenKind::LeftBracket {
            lemma_jp_array_spans(toks, b, pos, name);
        }
    }
}

proof fn lemma_jp_object_spans(toks: Seq<Token>, b: Seq<u8>, pos: int, name: Option<Seq<char>>)
    requires
        0 <= pos,
        json_spans_in_order(toks, b.len() as int),
    ensures
        jp_object(toks, b, pos, name) matches Ok((v, p)) ==> spans_nested(v) && v.span.start == toks[pos].span.start
            && v.span.end == toks[p - 1].span.end,
    decreases toks.len() - pos, 1int,
{
    if jp_expect(toks, pos, TokenKind::LeftBrace) is Ok {
        if pos + 1 < toks.len() && toks[pos + 1].kind == TokenKind::RightBrace {
            assert(toks[pos].span.end <= toks[pos + 1].span.start);
        } else {
            lemma_jp_members_spans(toks, b, pos + 1);
            lemma_jp_members_progress(toks, b, pos + 1);
            if let Ok((cs, q)) = jp_members(toks, b, pos + 1) {
                assert(toks[pos].span.end <= toks[pos + 1].span.start);
                if q > pos + 1 {
                    assert(toks[pos + 1].span.end <= toks[q].span.start);
                }
                assert(toks[pos].span.start <= toks[q].span.end);
            }
        }
    }
}

proof fn lemma_jp_members_spans(toks: Seq<Token>, b: Seq<u8>, pos: int)
    requires
        0 <= pos,
        json_spans_in_order(toks, b.len() as int),
    ensures
        jp_members(toks, b, pos) matches Ok((cs, p)) ==> list_nested(
            cs,
            toks[pos].span.start as int,
            toks[p].span.start as int,
        ),
    decreases toks.len() - pos, 0int,
{
    lemma_jp_members_progress(toks, b, pos);
    if let Ok(kt) = jp_expect(toks, pos, TokenKind::String) {
        if is_slice(b, kt.span.start as int, kt.span.end as int) {
            if let Some(key) = json_string_literal(text_of(b, kt.span.start as int, kt.span.end as int)) {
                if jp_expect(toks, pos + 1, TokenKind::Colon) is Ok {
                    lemma_jp_value_spans(toks, b, pos + 2, Some(key));
                    lemma_jp_value_progress(toks, b, pos + 2, Some(key));
                    if let Ok((v, p)) = jp_value(toks, b, pos + 2, Some(key)) {
                        assert(toks[pos].span.end <= toks[pos + 2].span.start);
                        if p < toks.len() {
                            if p - 1 < p {
                                assert(toks[p - 1].span.end <= toks[p].span.start);
                            }
                        }
                        if p < toks.len() && toks[p].kind == TokenKind::RightBrace {
                            lemma_list_cons(v, seq![], toks[pos].span.start as int, toks[p].span.start as int, toks[p].span.start as int);
                            assert(seq![v] + Seq::<SpecNode>::empty() =~= seq![v]);
                        } else if jp_expect(toks, p, TokenKind::Comma) is Ok {
                            lemma_jp_members_spans(toks, b, p + 1);
                            lemma_jp_members_progress(toks, b, p + 1);
                            if let Ok((rest, q)) = jp_members(toks, b, p + 1) {
                                assert(toks[p].span.end <= toks[p + 1].span.start);
                                if q > p + 1 {
                                    assert(toks[p + 1].span.end <= toks[q].span.start);
                                }
                                lemma_list_cons(v, rest, toks[pos].span.start as int, toks[p + 1].span.start as int, toks[q].span.start as int);
                            }
                        }
                    }
                }
            }
        }
    }
}

proof fn lemma_jp_array_spans(toks: Seq<Token>, b: Seq<u8>, pos: int, name: Option<Seq<char>>)
    requires
        0 <= pos,
        json_spans_in_order(toks, b.len() as int),
    ensures
        jp_array(toks, b, pos, name) matches Ok((v, p)) ==> spans_nested(v) && v.span.start == toks[pos].span.start
            && v.span.end == toks[p - 1].span.end,
    decreases toks.len() - pos, 1int,
{
    if jp_expect(toks, pos, TokenKind::LeftBracket) is Ok {
        if pos + 1 < toks.len() && toks[pos + 1].kind == TokenKind::RightBracket {
            assert(toks[pos].span.end <= toks[pos + 1].span.start);
        } else {
            lemma_jp_elements_spans(toks, b, pos + 1);
            lemma_jp_elements_progress(toks, b, pos + 1);
            if let Ok((cs, q)) = jp_elements(toks, b, pos + 1) {
                assert(toks[pos].span.end <= toks[pos + 1].span.start);
                if q > pos + 1 {
                    assert(toks[pos + 1].span.end <= toks[q].span.start);
                }
                assert(toks[pos].span.start <= toks[q].span.end);
            }
        }
    }
}

proof fn lemma_jp_elements_spans(toks: Seq<Token>, b: Seq<u8>, pos: int)
    requires
        0 <= pos,
        json_spans_in_order(toks, b.len() as int),
    ensures
        jp_elements(toks, b, pos) matches Ok((cs, p)) ==> list_nested(
            cs,
            toks[pos].span.start as int,
            toks[p].span.start as int,
        ),
    decreases toks.len() - pos, 3int,
{
    lemma_jp_elements_progress(toks, b, pos);
    if pos <= toks.len() {
        lemma_jp_value_spans(toks, b, pos, None);
        lemma_jp_value_progress(toks, b, pos, None);
        if let Ok((v, p)) = jp_value(toks, b, pos, None) {
            if p < toks.len() {
                assert(toks[p - 1].span.end <= toks[p].span.start);
            }
            if p < toks.len() && toks[p].kind == TokenKind::RightBracket {
                lemma_list_cons(v, seq![], toks[pos].span.start as int, toks[p].span.start as int, toks[p].span.start as int);
                assert(seq![v] + Seq::<SpecNode>::empty() =~= seq![v]);
            } else if jp_expect(toks, p, TokenKind::Comma) is Ok {
                lemma_jp_elements_spans(toks, b, p + 1);
                lemma_jp_elements_progress(toks, b, p + 1);
                if let Ok((rest, q)) = jp_elements(toks, b, p + 1) {
                    assert(toks[p].span.end <= toks[p + 1].span.start);
                    if q > p + 1 {
                        assert(toks[p + 1].span.end <= toks[q].span.start);
                    }
                    lemma_list_cons(v, rest, toks[pos].span.start as int, toks[p + 1].span.start as int, toks[q].span.start as int);
                }
            }
        }
    }
}

/// In a parsed JSON tree over tokens that lie in order, the root spans from
/// the first token's start to the last token's end, and every node's
/// children lie inside it, one after another without overlap.
pub proof fn lemma_json_parse_spans(toks: Seq<Token>, b: Seq<u8>)
    requires
        json_spans_in_order(toks, b.len() as int),
    ensures
        json_parse(toks, b) matches Ok(root) ==> spans_nested(root) && root.span.start == toks[0].span.start
            && root.span.end == toks.last().span.end,
{
    lemma_jp_value_spans(toks, b, 0, None);
    lemma_jp_value_progress(toks, b, 0, None);
}

/// The tokens lie in `b` in order, each ends within it, and each that is not
/// `Unknown` covers whole characters.
pub open spec fn tokens_fit(toks: Seq<Token>, b: Seq<u8>) -> bool {
    &&& json_spans_in_order(toks, b.len() as int)
    &&& forall|k: int| 0 <= k < toks.len() ==> (#[trigger] toks[k]).span.end <= b.len() && sliceable_token(b, toks[k])
}

/// An object or array opened by the token at `pos` and closed by the token at
/// `q` covers whole characters.
proof fn lemma_container_slice(toks: Seq<Token>, b: Seq<u8>, pos: int, q: int)
    requires
        tokens_fit(toks, b),
        0 <= pos < q < toks.len(),
        toks[pos].kind != TokenKind::Unknown,
        toks[q].kind != TokenKind::Unknown,
    ensures
        is_slice(b, toks[pos].span.start as int, toks[q].span.end as int),
{
    assert(sliceable_token(b, toks[pos]) && toks[pos].span.end <= b.len());
    assert(sliceable_token(b, toks[q]) && toks[q].span.end <= b.len());
    assert(toks[pos].span.end <= toks[q].span.start);
}

proof fn lemma_jp_value_safe(toks: Seq<Token>, b: Seq<u8>, pos: int, name: Option<Seq<char>>)
    requires
        0 <= pos,
        tokens_fit(toks, b),
    ensures
        !(jp_value(toks, b, pos, name) matches Err(JsonHalt::Panic)),
        jp_value(toks, b, pos, name) matches Ok((v, p)) ==> spans_sliceable(v, b),
    decreases toks.len() - pos, 2int,
{
    if pos < toks.len() {
        let t = toks[pos];
        if t.kind == TokenKind::LeftBrace {
            lemma_jp_object_safe(toks, b, pos, name);
        } else if t.kind == TokenKind::LeftBracket {
            lemma_jp_array_safe(toks, b, pos, name);
        } else {
            assert(sliceable_token(b, t) && t.span.end <= b.len());
        }
    }
}

proof fn lemma_jp_object_safe(toks: Seq<Token>, b: Seq<u8>, pos: int, name: Option<Seq<char>>)
    requires
        0 <= pos,
        tokens_fit(toks, b),
    ensures
        !(jp_object(toks, b, pos, name) matches Err(JsonHalt::Panic)),
        jp_object(toks, b, pos, name) matches Ok((v, p)) ==> spans_sliceable(v, b),
    decreases toks.len() - pos, 1int,
{
    if jp_expect(toks, pos, TokenKind::LeftBrace) is Ok {
        if pos + 1 < toks.len() && toks[pos + 1].kind == TokenKind::RightBrace {
            lemma_container_slice(toks, b, pos, pos + 1);
        } else {
            lemma_jp_members_safe(toks, b, pos + 1);
            lemma_jp_members_progress(toks, b, pos + 1);
            if let Ok((cs, q)) = jp_members(toks, b, pos + 1) {
                lemma_container_slice(toks, b, pos, q);
            }
        }
    }
}

proof fn lemma_jp_members_safe(toks: Seq<Token>, b: Seq<u8>, pos: int)
    requires
        0 <= pos,
        tokens_fit(toks, b),
    ensures
        !(jp_members(toks, b, pos) matches Err(JsonHalt::Panic)),
        jp_members(toks, b, pos) matches Ok((cs, p)) ==> (forall|i: int| 0 <= i < cs.len() ==> spans_sliceable(#[trigger] cs[i], b))
            && p < toks.len() && toks[p].kind == TokenKind::RightBrace,
    decreases toks.len() - pos, 0int,
{
    if let Ok(kt) = jp_expect(toks, pos, TokenKind::String) {
        assert(sliceable_token(b, toks[pos]) && toks[pos].span.end <= b.len());
        if let Some(key) = json_string_literal(text_of(b, kt.span.start as int, kt.span.end as int)) {
            if jp_expect(toks, pos + 1, TokenKind::Colon) is Ok {
                lemma_jp_value_safe(toks, b, pos + 2, Some(key));
                lemma_jp_value_progress(toks, b, pos + 2, Some(key));
                if let Ok((v, p)) = jp_value(toks, b, pos + 2, Some(key)) {
                    if !(p < toks.len() && toks[p].kind == TokenKind::RightBrace) && jp_expect(toks, p, TokenKind::Comma) is Ok {
                        lemma_jp_members_safe(toks, b, p + 1);
                        if let Ok((rest, q)) = jp_members(toks, b, p + 1) {
                            let cs = seq![v] + rest;
                            assert forall|i: int| 0 < i < cs.len() implies #[trigger] cs[i] == rest[i - 1] by {}
                        }
                    }
                }
            }
        }
    }
}

proof fn lemma_jp_array_safe(toks: Seq<Token>, b: Seq<u8>, pos: int, name: Option<Seq<char>>)
    requires
        0 <= pos,
        tokens_fit(toks, b),
    ensures
        !(jp_array(toks, b, pos, name) matches Err(JsonHalt::Panic)),
        jp_array(toks, b, pos, name) matches Ok((v, p)) ==> spans_sliceable(v, b),
    decreases toks.len() - pos, 1int,
{
    if jp_expect(toks, pos, TokenKind::LeftBracket) is Ok {
        if pos + 1 < toks.len() && toks[pos + 1].kind == TokenKind::RightBracket {
            lemma_container_slice(toks, b, pos, pos + 1);
        } else {
            lemma_jp_elements_safe(toks, b, pos + 1);
            lemma_jp_elements_progress(toks, b, pos + 1);
            if let Ok((cs, q)) = jp_elements(toks, b, pos + 1) {
                lemma_container_slice(toks, b, pos, q);
            }
        }
    }
}

proof fn lemma_jp_elements_safe(toks: Seq<Token>, b: Seq<u8>, pos: int)
    requires
        0 <= pos <= toks.len(),
        tokens_fit(toks, b),
    ensures
        !(jp_elements(toks, b, pos) matches Err(JsonHalt::Panic)),
        jp_elements(toks, b, pos) matches Ok((cs, p)) ==> (forall|i: int| 0 <= i < cs.len() ==> spans_sliceable(#[trigger] cs[i], b))
            && p < toks.len() && toks[p].kind == TokenKind::RightBracket,
    decreases toks.len() - pos, 3int,
{
    lemma_jp_value_safe(toks, b, pos, None);
    lemma_jp_value_progress(toks, b, pos, None);
    if let Ok((v, p)) = jp_value(toks, b, pos, None) {
        if !(p < toks.len() && toks[p].kind == TokenKind::RightBracket) && jp_expect(toks, p, TokenKind::Comma) is Ok {
            lemma_jp_elements_safe(toks, b, p + 1);
            if let Ok((rest, q)) = jp_elements(toks, b, p + 1) {
                let cs = seq![v] + rest;
                assert forall|i: int| 0 < i < cs.len() implies #[trigger] cs[i] == rest[i - 1] by {}
            }
        }
    }
}

/// Parsing tokens that fit the text never panics, and every node of the tree
/// it builds covers whole characters of the text.
pub proof fn lemma_json_parse_safe(toks: Seq<Token>, b: Seq<u8>)
    requires
        tokens_fit(toks, b),
    ensures
        !(json_parse(toks, b) matches Err(JsonHalt::Panic)),
        json_parse(toks, b) matches Ok(tree) ==> spans_sliceable(tree, b),
{
    lemma_jp_value_safe(toks, b, 0, None);
}

/// A value that is a single string, number, `true`, `false` or `null` token
/// becomes a childless leaf over that token's span, carrying the value's
/// name, whose kind matches the token: a string gives `String`, a number
/// `Number`, `true` and `false` give `Boolean`, and `null` gives `Null`.
pub proof fn lemma_json_scalar_leaves(toks: Seq<Token>, b: Seq<u8>, pos: int, name: Option<Seq<char>>)
    requires
        0 <= pos < toks.len(),
        toks[pos].kind == TokenKind::String || toks[pos].kind == TokenKind::Number || toks[pos].kind == TokenKind::True
            || toks[pos].kind == TokenKind::False || toks[pos].kind == TokenKind::Null,
    ensures
        jp_value(toks, b, pos, name) matches Ok((v, q)) && q == pos + 1 && v.span == toks[pos].span
            && v.children.len() == 0 && v.name == name
            && (toks[pos].kind == TokenKind::String ==> v.kind == SyntaxKind::String)
            && (toks[pos].kind == TokenKind::Number ==> v.kind == SyntaxKind::Number)
            && (toks[pos].kind == TokenKind::True || toks[pos].kind == TokenKind::False ==> v.kind == SyntaxKind::Boolean)
            && (toks[pos].kind == TokenKind::Null ==> v.kind == SyntaxKind::Null),
{
}

/// The shape of a JSON value tree: the members of an object are named, the
/// elements of an array are not, and scalars have no children.
pub open spec fn json_shaped(n: SpecNode) -> bool
    decreases n,
{
    &&& (n.kind == SyntaxKind::Object ==> forall|i: int| 0 <= i < n.children.len() ==> (#[trigger] n.children[i]).name is Some)
    &&& (n.kind == SyntaxKind::Array ==> forall|i: int| 0 <= i < n.children.len() ==> (#[trigger] n.children[i]).name is None)
    &&& (n.kind != SyntaxKind::Object && n.kind != SyntaxKind::Array ==> n.children.len() == 0)
    &&& forall|i: int| 0 <= i < n.children.len() ==> json_shaped(#[trigger] n.children[i])
}

proof fn lemma_jp_value_shape(toks: Seq<Token>, b: Seq<u8>, pos: int, name: Option<Seq<char>>)
    ensures
        jp_value(toks, b, pos, name) matches Ok((v, p)) ==> json_shaped(v) && v.name == name,
    decreases toks.len() - pos, 2int,
{
    if 0 <= pos < toks.len() {
        let t = toks[pos];
        if t.kind == TokenKind::LeftBrace {
            lemma_jp_object_shape(toks, b, pos, name);
        } else if t.kind == TokenKind::LeftBracket {
            lemma_jp_array_shape(toks, b, pos, name);
        }
    }
}

proof fn lemma_jp_object_shape(toks: Seq<Token>, b: Seq<u8>, pos: int, name: Option<Seq<char>>)
    ensures
        jp_object(toks, b, pos, name) matches Ok((v, p)) ==> json_shaped(v) && v.name == name,
    decreases toks.len() - pos, 1int,
{
    if jp_expect(toks, pos, TokenKind::LeftBrace) is Ok && !(pos + 1 < toks.len() && toks[pos + 1].kind
        == TokenKind::RightBrace) {
        lemma_jp_members_shape(toks, b, pos + 1);
    }
}

proof fn lemma_jp_members_shape(toks: Seq<Token>, b: Seq<u8>, pos: int)
    ensures
        jp_members(toks, b, pos) matches Ok((cs, p)) ==> forall|i: int|
            0 <= i < cs.len() ==> json_shaped(#[trigger] cs[i]) && cs[i].name is Some,
    decreases toks.len() - pos, 0int,
{
    if let Ok(kt) = jp_expect(toks, pos, TokenKind::String) {
        if is_slice(b, kt.span.start as int, kt.span.end as int) {
            if let Some(key) = json_string_literal(text_of(b, kt.span.start as int, kt.span.end as int)) {
                if jp_expect(toks, pos + 1, TokenKind::Colon) is Ok {
                    lemma_jp_value_shape(toks, b, pos + 2, Some(key));
                    if let Ok((v, p)) = jp_value(toks, b, pos + 2, Some(key)) {
                        if !(p <= pos + 2 || p > toks.len()) && !(p < toks.len() && toks[p].kind == TokenKind::RightBrace)
                            && jp_expect(toks, p, TokenKind::Comma) is Ok {
                            lemma_jp_members_shape(toks, b, p + 1);
                            if let Ok((rest, q)) = jp_members(toks, b, p + 1) {
                                let cs = seq![v] + rest;
                                assert forall|i: int| 0 < i < cs.len() implies #[trigger] cs[i] == rest[i - 1] by {}
                            }
                        }
                    }
                }
            }
        }
    }
}

proof fn lemma_jp_array_shape(toks: Seq<Token>, b: Seq<u8>, pos: int, name: Option<Seq<char>>)
    ensures
        jp_array(toks, b, pos, name) matches Ok((v, p)) ==> json_shaped(v) && v.name == name,
    decreases toks.len() - pos, 1int,
{
    if jp_expect(toks, pos, TokenKind::LeftBracket) is Ok && !(pos + 1 < toks.len() && toks[pos + 1].kind
        == TokenKind::RightBracket) {
        lemma_jp_elements_shape(toks, b, pos + 1);
    }
}

proof fn lemma_jp_elements_shape(toks: Seq<Token>, b: Seq<u8>, pos: int)
    ensures
        jp_elements(toks, b, pos) matches Ok((cs, p)) ==> forall|i: int|
            0 <= i < cs.len() ==> json_shaped(#[trigger] cs[i]) && cs[i].name is None,
    decreases toks.len() - pos, 3int,
{
    if 0 <= pos <= toks.len() {
        lemma_jp_value_shape(toks, b, pos, None);
        if let Ok((v, p)) = jp_value(toks, b, pos, None) {
            if !(p <= pos || p > toks.len()) && !(p < toks.len() && toks[p].kind == TokenKind::RightBracket)
                && jp_expect(toks, p, TokenKind::Comma) is Ok {
                lemma_jp_elements_shape(toks, b, p + 1);
                if let Ok((rest, q)) = jp_elements(toks, b, p + 1) {
                    let cs = seq![v] + rest;
                    assert forall|i: int| 0 < i < cs.len() implies #[trigger] cs[i] == rest[i - 1] by {}
                }
            }
        }
    }
}

/// A parsed JSON tree is an unnamed root value of the JSON shape.
pub proof fn lemma_json_parse_shape(toks: Seq<Token>, b: Seq<u8>)
    ensures
        json_parse(toks, b) matches Ok(tree) ==> json_shaped(tree) && tree.name is None,
{
    lemma_jp_value_shape(toks, b, 0, None);
}

/// An executable result agrees with a parse outcome that is not a panic.
pub open spec fn node_result_matches(
    r: Result<SyntaxNode, ParseError>,
    s: Result<SpecNode, JsonHalt>,
) -> bool {
    match s {
        Ok(n) => r matches Ok(node) && node_view(node) == n,
        Err(JsonHalt::Error(e)) => r matches Err(err) && err@ == e,
        Err(JsonHalt::Panic) => false,
    }
}

pub struct JsonSyntaxParser<'a> {
    tokens: &'a [Token],
    source: &'a str,
    current: usize,
}

impl<'a> JsonSyntaxParser<'a> {
    pub closed spec fn spec_tokens(&self) -> Seq<Token> {
        self.tokens@
    }

    pub closed spec fn spec_source(&self) -> &'a str {
        self.source
    }

    pub closed spec fn spec_current(&self) -> usize {
        self.current
    }

    pub fn new(tokens: &'a [Token], source: &'a str) -> (p: Self)
        ensures
            p.spec_tokens() == tokens@,
            p.spec_source() == source,
            p.spec_current() == 0,
    {
        JsonSyntaxParser { tokens, source, current: 0 }
    }

    /// Parses one value and requires that no token follows it.
    pub fn parse(self) -> (r: Result<SyntaxNode, ParseError>)
        requires
            self.spec_current() == 0,
            !(json_parse(self.spec_tokens(), self.spec_source().spec_bytes()) matches Err(
                JsonHalt::Panic,
            )),
        ensures
            node_result_matches(r, json_parse(self.spec_tokens(), self.spec_source().spec_bytes())),
    {
        let mut parser = self;
        let root = match parser.parse_value(None) {
            Ok(root) => root,
            Err(e) => return Err(e),
        };
        if parser.current < parser.tokens.len() {
            let token = parser.tokens[parser.current];
            let message = String::from_str("unexpected token after root value: ").concat(
                token.kind.name(),
            );
            return Err(ParseError::unexpected_token(message.as_str(), token.span));
        }
        Ok(root)
    }

    /// A decoded object key, or the error for a key `serde_json` rejected.
    pub fn object_key(decoded: Option<String>) -> (r: Result<String, ParseError>)
        ensures
            match decoded {
                Some(k) => r matches Ok(s) && s@ == k@,
                None => r matches Err(e) && JsonHalt::Error(e@) == invalid_key(),
            },
    {
        match decoded {
            Some(k) => Ok(k),
            None => Err(ParseError::invalid_syntax("invalid object key")),
        }
    }

    fn parse_value(&mut self, name: Option<String>) -> (r: Result<SyntaxNode, ParseError>)
        requires
            !(jp_value(old(self).tokens@, old(self).source.spec_bytes(), old(self).current as int, opt_string_view(name)) matches Err(JsonHalt::Panic)),
        ensures
            final(self).tokens == old(self).tokens,
            final(self).source == old(self).source,
            match jp_value(old(self).tokens@, old(self).source.spec_bytes(), old(self).current as int, opt_string_view(name)) {
                Ok((n, p)) => r matches Ok(node) && node_view(node) == n && final(self).current == p
                    && old(self).current < p <= old(self).tokens@.len(),
                Err(JsonHalt::Error(e)) => r matches Err(err) && err@ == e,
                Err(JsonHalt::Panic) => false,
            },
        decreases old(self).tokens@.len() - old(self).current, 2int,
    {
        if self.current >= self.tokens.len() {
            return Err(ParseError::unexpected_end_of_input("expected value, found end of input"));
        }
        let token = self.tokens[self.current];
        match token.kind {
            TokenKind::LeftBrace => self.parse_object(name),
            TokenKind::LeftBracket => self.parse_array(name),
            TokenKind::String => {
                self.advance();
                Ok(Self::leaf_node(SyntaxKind::String, token.span, name))
            },
            TokenKind::Number => {
                self.advance();
                Ok(Self::leaf_node(SyntaxKind::Number, token.span, name))
            },
            TokenKind::True | TokenKind::False => {
                self.advance();
                Ok(Self::leaf_node(SyntaxKind::Boolean, token.span, name))
            },
            TokenKind::Null => {
                self.advance();
                Ok(Self::leaf_node(SyntaxKind::Null, token.span, name))
            },
            _ => {
                let message = String::from_str("expected value, found ").concat(token.kind.name());
                Err(ParseError::unexpected_token(message.as_str(), token.span))
            },
        }
    }

    fn parse_object(&mut self, name: Option<String>) -> (r: Result<SyntaxNode, ParseError>)
        requires
            !(jp_object(old(self).tokens@, old(self).source.spec_bytes(), old(self).current as int, opt_string_view(name)) matches Err(JsonHalt::Panic)),
        ensures
            final(self).tokens == old(self).tokens,
            final(self).source == old(self).source,
            match jp_object(old(self).tokens@, old(self).source.spec_bytes(), old(self).current as int, opt_string_view(name)) {
                Ok((n, p)) => r matches Ok(node) && node_view(node) == n && final(self).current == p
                    && old(self).current < p <= old(self).tokens@.len(),
                Err(JsonHalt::Error(e)) => r matches Err(err) && err@ == e,
                Err(JsonHalt::Panic) => false,
            },
        decreases old(self).tokens@.len() - old(self).current, 1int,
    {
        let ghost toks = self.tokens@;
        let ghost b = self.source.spec_bytes();
        let ghost c0 = self.current as int;
        let start = match self.expect(TokenKind::LeftBrace) {
            Ok(t) => t.span.start,
            Err(e) => return Err(e),
        };
        let mut children: Vec<SyntaxNode> = Vec::new();
        if self.check(TokenKind::RightBrace) {
            let end = self.advance().span.end;
            assert(nodes_view(children@) =~= seq![]);
            return Ok(SyntaxNode { kind: SyntaxKind::Object, span: Span::new(start, end), name, children });
        }
        let ghost p0 = self.current as int;
        let ghost nv = opt_string_view(name);
        assert(jp_object(toks, b, c0, nv) == close_node(SyntaxKind::Object, start, nv, toks, jp_members(toks, b, p0)));
        loop
            invariant_except_break
                jp_members(toks, b, p0) == prepend(nodes_view(children@), jp_members(toks, b, self.current as int)),
            invariant
                self.tokens@ == toks,
                self.source.spec_bytes() == b,
                c0 < p0 <= self.current <= toks.len(),
                p0 == c0 + 1,
                c0 == old(self).current,
                toks == old(self).tokens@,
                self.tokens == old(self).tokens,
                self.source == old(self).source,
                !(jp_members(toks, b, p0) matches Err(JsonHalt::Panic)),
                jp_object(toks, b, c0, nv) == close_node(SyntaxKind::Object, start, nv, toks, jp_members(toks, b, p0)),
                nv == opt_string_view(name),
            ensures
                self.tokens@ == toks,
                self.tokens == old(self).tokens,
                self.source == old(self).source,
                self.source.spec_bytes() == b,
                self.current < toks.len(),
                toks[self.current as int].kind == TokenKind::RightBrace,
                jp_members(toks, b, p0) == Ok::<(Seq<SpecNode>, int), JsonHalt>((nodes_view(children@), self.current as int)),
            decreases toks.len() - self.current,
        {
            let ghost cur = self.current as int;
            let key_token = match self.expect(TokenKind::String) {
                Ok(t) => t,
                Err(e) => return Err(e),
            };
            let decoded = self.string_value(key_token.span);
            let key = match Self::object_key(decoded) {
                Ok(k) => k,
                Err(e) => return Err(e),
            };
            let ghost key_view = key@;
            match self.expect(TokenKind::Colon) {
                Ok(_) => {},
                Err(e) => return Err(e),
            }
            let value = match self.parse_value(Some(key)) {
                Ok(v) => v,
                Err(e) => return Err(e),
            };
            let ghost before = children@;
            children.push(value);
            assert(nodes_view(children@) =~= nodes_view(before) + seq![node_view(value)]);
            proof {
                lemma_prepend_prepend(nodes_view(before), seq![node_view(value)], jp_members(toks, b, self.current + 1));
            }
            let ghost p = self.current as int;
            assert(jp_value(toks, b, cur + 2, Some(key_view)) == Ok::<(SpecNode, int), JsonHalt>((node_view(value), p)));
            if self.check(TokenKind::RightBrace) {
                assert(jp_members(toks, b, cur) == Ok::<(Seq<SpecNode>, int), JsonHalt>((seq![node_view(value)], p)));
                break;
            }
            match self.expect(TokenKind::Comma) {
                Ok(_) => {},
                Err(e) => return Err(e),
            }
        }
        let end = self.advance().span.end;
        Ok(SyntaxNode { kind: SyntaxKind::Object, span: Span::new(start, end), name, children })
    }

    fn parse_array(&mut self, name: Option<String>) -> (r: Result<SyntaxNode, ParseError>)
        requires
            !(jp_array(old(self).tokens@, old(self).source.spec_bytes(), old(self).current as int, opt_string_view(name)) matches Err(JsonHalt::Panic)),
        ensures
            final(self).tokens == old(self).tokens,
            final(self).source == old(self).source,
            match jp_array(old(self).tokens@, old(self).source.spec_bytes(), old(self).current as int, opt_string_view(name)) {
                Ok((n, p)) => r matches Ok(node) && node_view(node) == n && final(self).current == p
                    && old(self).current < p <= old(self).tokens@.len(),
                Err(JsonHalt::Error(e)) => r matches Err(err) && err@ == e,
                Err(JsonHalt::Panic) => false,
            },
        decreases old(self).tokens@.len() - old(self).current, 1int,
    {
        let ghost toks = self.tokens@;
        let ghost b = self.source.spec_bytes();
        let ghost c0 = self.current as int;
        let start = match self.expect(TokenKind::LeftBracket) {
            Ok(t) => t.span.start,
            Err(e) => return Err(e),
        };
        let mut children: Vec<SyntaxNode> = Vec::new();
        if self.check(TokenKind::RightBracket) {
            let end = self.advance().span.end;
            assert(nodes_view(children@) =~= seq![]);
            return Ok(SyntaxNode { kind: SyntaxKind::Array, span: Span::new(start, end), name, children });
        }
        let ghost p0 = self.current as int;
        let ghost nv = opt_string_view(name);
        assert(jp_array(toks, b, c0, nv) == close_node(SyntaxKind::Array, start, nv, toks, jp_elements(toks, b, p0)));
        loop
            invariant_except_break
                jp_elements(toks, b, p0) == prepend(nodes_view(children@), jp_elements(toks, b, self.current as int)),
            invariant
                self.tokens@ == toks,
                self.source.spec_bytes() == b,
                c0 < p0 <= self.current <= toks.len(),
                p0 == c0 + 1,
                c0 == old(self).current,
                toks == old(self).tokens@,
                self.tokens == old(self).tokens,
                self.source == old(self).source,
                !(jp_elements(toks, b, p0) matches Err(JsonHalt::Panic)),
                jp_array(toks, b, c0, nv) == close_node(SyntaxKind::Array, start, nv, toks, jp_elements(toks, b, p0)),
                nv == opt_string_view(name),
            ensures
                self.tokens@ == toks,
                self.tokens == old(self).tokens,
                self.source == old(self).source,
                self.source.spec_bytes() == b,
                self.current < toks.len(),
                toks[self.current as int].kind == TokenKind::RightBracket,
                jp_elements(toks, b, p0) == Ok::<(Seq<SpecNode>, int), JsonHalt>((nodes_view(children@), self.current as int)),
            decreases toks.len() - self.current,
        {
            let ghost cur = self.current as int;
            let value = match self.parse_value(None) {
                Ok(v) => v,
                Err(e) => return Err(e),
            };
            let ghost before = children@;
            children.push(value);
            assert(nodes_view(children@) =~= nodes_view(before) + seq![node_view(value)]);
            proof {
                lemma_prepend_prepend(nodes_view(before), seq![node_view(value)], jp_elements(toks, b, self.current + 1));
            }
            if self.check(TokenKind::RightBracket) {
                break;
            }
            match self.expect(TokenKind::Comma) {
                Ok(_) => {},
                Err(e) => return Err(e),
            }
        }
        let end = self.advance().span.end;
        Ok(SyntaxNode { kind: SyntaxKind::Array, span: Span::new(start, end), name, children })
    }

    fn leaf_node(kind: SyntaxKind, span: Span, name: Option<String>) -> (n: SyntaxNode)
        ensures
            node_view(n) == leaf(kind, span, opt_string_view(name)),
    {
        let children: Vec<SyntaxNode> = Vec::new();
        assert(nodes_view(children@) =~= seq![]);
        SyntaxNode { kind, span, name, children }
    }

    fn advance(&mut self) -> (t: Token)
        requires
            old(self).current < old(self).tokens@.len(),
        ensures
            t == old(self).tokens@[old(self).current as int],
            final(self).current == old(self).current + 1,
            final(self).tokens == old(self).tokens,
            final(self).source == old(self).source,
    {
        let token = self.tokens[self.current];
        self.current += 1;
        token
    }

    fn check(&self, kind: TokenKind) -> (b: bool)
        ensures
            b == (self.current < self.tokens@.len() && self.tokens@[self.current as int].kind == kind),
    {
        self.current < self.tokens.len() && self.tokens[self.current].kind == kind
    }

    fn expect(&mut self, kind: TokenKind) -> (r: Result<Token, ParseError>)
        ensures
            final(self).tokens == old(self).tokens,
            final(self).source == old(self).source,
            match jp_expect(old(self).tokens@, old(self).current as int, kind) {
                Ok(t) => r == Ok::<Token, ParseError>(t) && final(self).current == old(self).current + 1,
                Err(JsonHalt::Error(e)) => r matches Err(err) && err@ == e,
                Err(JsonHalt::Panic) => false,
            },
    {
        if self.current >= self.tokens.len() {
            let message = String::from_str("expected ").concat(kind.name()).concat(", found end of input");
            return Err(ParseError::unexpected_end_of_input(message.as_str()));
        }
        let token = self.tokens[self.current];
        if token.kind != kind {
            let message = String::from_str("expected ").concat(kind.name()).concat(", found ").concat(
                token.kind.name(),
            );
            return Err(ParseError::unexpected_token(message.as_str(), token.span));
        }
        Ok(self.advance())
    }

    /// The decoded text of the string literal at `span`.
    fn string_value(&self, span: Span) -> (r: Option<String>)
        requires
            is_slice(self.source.spec_bytes(), span.start as int, span.end as int),
        ensures
            opt_string_view(r) == json_string_literal(text_of(self.source.spec_bytes(), span.start as int, span.end as int)),
    {
        let value = slice_str(self.source, span.start, span.end);
        decode_string_literal(value)
    }
}

} // verus!

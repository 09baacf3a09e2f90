//! Splits JSON text into tokens.
use vstd::prelude::*;
use vstd::string::StringSliceAdditionalSpecFns;
use crate::span::Span;
use crate::json::token::{token, Token, TokenKind};
use crate::text::{is_slice, lemma_after_ascii_is_boundary, lemma_after_end_is_boundary, lemma_ascii_is_boundary};
use vstd::utf8::valid_utf8;

verus! {

broadcast use vstd::seq::group_seq_axioms;

/// Where a string literal whose body starts at `j` ends: just past the closing
/// quote, or at the end of the text when it is unterminated. A backslash skips
/// the byte after it, so a backslash as the last byte ends one past the text.
pub open spec fn string_end(b: Seq<u8>, j: int) -> int
    decreases b.len() + 1 - j,
{
    if j >= b.len() || j < 0 {
        j
    } else if b[j] == 92 {
        string_end(b, j + 2)
    } else if b[j] == 34 {
        j + 1
    } else {
        string_end(b, j + 1)
    }
}

/// Bytes that end a number: `,`, `}`, `]` and whitespace.
pub open spec fn ends_number(c: u8) -> bool {
    c == 44 || c == 125 || c == 93 || c == 32 || c == 10 || c == 13 || c == 9
}

/// Where a number that starts at `j` ends: at the first byte that ends a number.
pub open spec fn number_end(b: Seq<u8>, j: int) -> int
    decreases b.len() - j,
{
    if j >= b.len() || j < 0 || ends_number(b[j]) {
        j
    } else {
        number_end(b, j + 1)
    }
}

pub open spec fn is_json_whitespace(c: u8) -> bool {
    c == 32 || c == 10 || c == 13 || c == 9
}

/// `lit` stands at offset `i` of `b`.
pub open spec fn literal_at(b: Seq<u8>, i: int, lit: Seq<u8>) -> bool {
    0 <= i && i + lit.len() <= b.len() && b.subrange(i, i + lit.len()) == lit
}

pub open spec fn true_bytes() -> Seq<u8> {
    seq![116u8, 114, 117, 101]
}

pub open spec fn false_bytes() -> Seq<u8> {
    seq![102u8, 97, 108, 115, 101]
}

pub open spec fn null_bytes() -> Seq<u8> {
    seq![110u8, 117, 108, 108]
}

/// The token that starts at offset `i` (none for whitespace) and the offset
/// where lexing goes on.
pub open spec fn json_step(b: Seq<u8>, i: int) -> (Option<Token>, int) {
    let c = b[i];
    if c == 123 {
        (Some(token(TokenKind::LeftBrace, i, i + 1)), i + 1)
    } else if c == 125 {
        (Some(token(TokenKind::RightBrace, i, i + 1)), i + 1)
    } else if c == 91 {
        (Some(token(TokenKind::LeftBracket, i, i + 1)), i + 1)
    } else if c == 93 {
        (Some(token(TokenKind::RightBracket, i, i + 1)), i + 1)
    } else if c == 58 {
        (Some(token(TokenKind::Colon, i, i + 1)), i + 1)
    } else if c == 44 {
        (Some(token(TokenKind::Comma, i, i + 1)), i + 1)
    } else if c == 34 {
        let e = string_end(b, i + 1);
        (Some(token(TokenKind::String, i, e)), e)
    } else if c == 45 || (48 <= c <= 57) {
        let e = number_end(b, i);
        (Some(token(TokenKind::Number, i, e)), e)
    } else if c == 116 && literal_at(b, i, true_bytes()) {
        (Some(token(TokenKind::True, i, i + 4)), i + 4)
    } else if c == 102 && literal_at(b, i, false_bytes()) {
        (Some(token(TokenKind::False, i, i + 5)), i + 5)
    } else if c == 110 && literal_at(b, i, null_bytes()) {
        (Some(token(TokenKind::Null, i, i + 4)), i + 4)
    } else if is_json_whitespace(c) {
        (None, i + 1)
    } else {
        (Some(token(TokenKind::Unknown, i, i + 1)), i + 1)
    }
}

pub proof fn lemma_string_end(b: Seq<u8>, j: int)
    requires
        0 <= j,
    ensures
        j <= string_end(b, j),
        string_end(b, j) <= b.len() + 1 || string_end(b, j) == j,
        j < b.len() ==> j < string_end(b, j) <= b.len() + 1,
    decreases b.len() + 1 - j,
{
    if j < b.len() {
        if b[j] == 92 {
            lemma_string_end(b, j + 2);
        } else if b[j] != 34 {
            lemma_string_end(b, j + 1);
        }
    }
}

pub proof fn lemma_number_end(b: Seq<u8>, j: int)
    requires
        0 <= j,
    ensures
        j <= number_end(b, j),
        j <= b.len() ==> number_end(b, j) <= b.len(),
    decreases b.len() - j,
{
    if j < b.len() && !ends_number(b[j]) {
        lemma_number_end(b, j + 1);
    }
}

pub proof fn lemma_json_step(b: Seq<u8>, i: int)
    requires
        0 <= i < b.len(),
    ensures
        i < json_step(b, i).1 <= b.len() + 1,
{
    lemma_string_end(b, i + 1);
    lemma_number_end(b, i + 1);
}

/// The tokens of `b` from offset `i` on.
pub open spec fn json_lex(b: Seq<u8>, i: int) -> Seq<Token>
    decreases b.len() + 1 - i,
    via json_lex_decreases
{
    if i < 0 || i >= b.len() {
        seq![]
    } else {
        let (t, next) = json_step(b, i);
        match t {
            Some(t) => seq![t] + json_lex(b, next),
            None => json_lex(b, next),
        }
    }
}

#[via_fn]
proof fn json_lex_decreases(b: Seq<u8>, i: int) {
    if 0 <= i < b.len() {
        lemma_json_step(b, i);
    }
}

/// The tokens of a JSON text.
pub open spec fn json_tokens(b: Seq<u8>) -> Seq<Token> {
    json_lex(b, 0)
}

/// Tokens lie in their source in order: each starts inside the first `n`
/// bytes and covers a non-empty range, each starts at or after the end of the
/// one before it, and each ends within the text except a last string token
/// whose closing quote is missing after a trailing backslash, which ends one
/// byte past it.
pub open spec fn json_spans_in_order(toks: Seq<Token>, n: int) -> bool {
    &&& forall|i: int| 0 <= i < toks.len() ==> (#[trigger] toks[i]).span.start < toks[i].span.end
        && toks[i].span.start < n
        && (toks[i].span.end <= n || (i == toks.len() - 1 && toks[i].kind == TokenKind::String
            && toks[i].span.end == n + 1))
    &&& forall|i: int, j: int|
        0 <= i < j < toks.len() ==> (#[trigger] toks[i]).span.end <= (#[trigger] toks[j]).span.start
}

proof fn lemma_json_lex_in_order(b: Seq<u8>, i: int)
    requires
        0 <= i <= b.len() + 1,
        b.len() < usize::MAX,
    ensures
        json_spans_in_order(json_lex(b, i), b.len() as int),
        forall|k: int| 0 <= k < json_lex(b, i).len() ==> (#[trigger] json_lex(b, i)[k]).span.start >= i,
    decreases b.len() + 1 - i,
{
    if i < b.len() {
        lemma_json_step(b, i);
        lemma_number_end(b, i);
        let next = json_step(b, i).1;
        lemma_json_lex_in_order(b, next);
        let rest = json_lex(b, next);
        if let Some(t) = json_step(b, i).0 {
            assert(t.span.start == i && t.span.end == next);
            assert(next <= b.len() || t.kind == TokenKind::String);
            if next > b.len() {
                assert(rest.len() == 0);
            }
            let all = seq![t] + rest;
            assert(json_lex(b, i) == all);
            assert forall|k: int| 0 < k < all.len() implies #[trigger] all[k] == rest[k - 1] by {}
            assert forall|x: int, y: int| 0 <= x < y < all.len() implies (#[trigger] all[x]).span.end
                <= (#[trigger] all[y]).span.start by {
                assert(all[y] == rest[y - 1]);
                if x > 0 {
                    assert(all[x] == rest[x - 1]);
                }
            }
        }
    }
}

proof fn lemma_string_end_quote(b: Seq<u8>, j: int)
    requires
        0 <= j,
    ensures
        string_end(b, j) >= b.len() || (j < string_end(b, j) && b[string_end(b, j) - 1] == 34),
    decreases b.len() + 1 - j,
{
    if j < b.len() {
        if b[j] == 92 {
            lemma_string_end_quote(b, j + 2);
        } else if b[j] != 34 {
            lemma_string_end_quote(b, j + 1);
        }
    }
}

proof fn lemma_number_end_stop(b: Seq<u8>, j: int)
    requires
        0 <= j <= b.len(),
    ensures
        number_end(b, j) == b.len() || (number_end(b, j) < b.len() && ends_number(b[number_end(b, j)])),
    decreases b.len() - j,
{
    if j < b.len() && !ends_number(b[j]) {
        lemma_number_end_stop(b, j + 1);
    }
}

proof fn lemma_number_end_run(b: Seq<u8>, j: int)
    requires
        0 <= j <= b.len(),
    ensures
        forall|k: int| j <= k < number_end(b, j) ==> !ends_number(#[trigger] b[k]),
    decreases b.len() - j,
{
    if j < b.len() && !ends_number(b[j]) {
        lemma_number_end_run(b, j + 1);
    }
}

/// A number token starts at `i` and stops at the first comma, closing brace,
/// closing bracket or whitespace byte: none of these bytes lies inside it,
/// and one of them follows it unless it reaches the end of the text.
pub open spec fn number_stops_right(b: Seq<u8>, t: Token) -> bool {
    t.kind == TokenKind::Number ==> {
        &&& forall|j: int|
            t.span.start <= j < t.span.end ==> !(#[trigger] b[j] == 44u8 || b[j] == 125u8 || b[j] == 93u8 || b[j]
                == 32u8 || b[j] == 10u8 || b[j] == 13u8 || b[j] == 9u8)
        &&& t.span.end < b.len() ==> (b[t.span.end as int] == 44u8 || b[t.span.end as int] == 125u8
            || b[t.span.end as int] == 93u8 || b[t.span.end as int] == 32u8 || b[t.span.end as int] == 10u8
            || b[t.span.end as int] == 13u8 || b[t.span.end as int] == 9u8)
    }
}

proof fn lemma_json_lex_numbers(b: Seq<u8>, i: int)
    requires
        0 <= i <= b.len() + 1,
        b.len() < usize::MAX,
    ensures
        forall|k: int| 0 <= k < json_lex(b, i).len() ==> number_stops_right(b, #[trigger] json_lex(b, i)[k]),
    decreases b.len() + 1 - i,
{
    if i < b.len() {
        lemma_json_step(b, i);
        lemma_number_end(b, i);
        let next = json_step(b, i).1;
        lemma_json_lex_numbers(b, next);
        let rest = json_lex(b, next);
        if let Some(t) = json_step(b, i).0 {
            if t.kind == TokenKind::Number {
                lemma_number_end_run(b, i);
                lemma_number_end_stop(b, i);
            }
            let all = seq![t] + rest;
            assert(json_lex(b, i) == all);
            assert forall|k: int| 0 <= k < all.len() implies number_stops_right(b, #[trigger] all[k]) by {
                if k > 0 {
                    assert(all[k] == rest[k - 1]);
                }
            }
        }
    }
}

/// Every number token of a JSON text stops at the first comma, closing
/// brace, closing bracket or whitespace byte after its start.
pub proof fn lemma_json_numbers_stop(b: Seq<u8>)
    requires
        b.len() < usize::MAX,
    ensures
        forall|k: int| 0 <= k < json_tokens(b).len() ==> number_stops_right(b, #[trigger] json_tokens(b)[k]),
{
    lemma_json_lex_numbers(b, 0);
}

/// A token other than `Unknown` that ends within the text can be sliced out
/// of it.
pub open spec fn sliceable_token(b: Seq<u8>, t: Token) -> bool {
    t.kind != TokenKind::Unknown && t.span.end <= b.len() ==> is_slice(b, t.span.start as int, t.span.end as int)
}

proof fn lemma_json_lex_sliceable(b: Seq<u8>, i: int)
    requires
        valid_utf8(b),
        0 <= i <= b.len() + 1,
        b.len() < usize::MAX,
    ensures
        forall|k: int| 0 <= k < json_lex(b, i).len() ==> sliceable_token(b, #[trigger] json_lex(b, i)[k]),
    decreases b.len() + 1 - i,
{
    if i < b.len() {
        lemma_json_step(b, i);
        lemma_number_end(b, i);
        let next = json_step(b, i).1;
        lemma_json_lex_sliceable(b, next);
        let rest = json_lex(b, next);
        if let Some(t) = json_step(b, i).0 {
            if t.kind != TokenKind::Unknown && t.span.end <= b.len() {
                let c = b[i];
                lemma_ascii_is_boundary(b, i);
                if c == 34 {
                    lemma_string_end_quote(b, i + 1);
                    if next == b.len() {
                        lemma_after_end_is_boundary(b);
                    } else {
                        lemma_after_ascii_is_boundary(b, next);
                    }
                } else if c == 45 || (48 <= c <= 57) {
                    lemma_number_end_stop(b, i);
                    if next == b.len() {
                        lemma_after_end_is_boundary(b);
                    } else {
                        lemma_ascii_is_boundary(b, next);
                    }
                } else {
                    assert(b[next - 1] < 0x80) by {
                        if c == 116 && literal_at(b, i, true_bytes()) {
                            assert(b[i + 3] == b.subrange(i, i + 4)[3]);
                        } else if c == 102 && literal_at(b, i, false_bytes()) {
                            assert(b[i + 4] == b.subrange(i, i + 5)[4]);
                        } else if c == 110 && literal_at(b, i, null_bytes()) {
                            assert(b[i + 3] == b.subrange(i, i + 4)[3]);
                        }
                    }
                    lemma_after_ascii_is_boundary(b, next);
                }
            }
            let all = seq![t] + rest;
            assert(json_lex(b, i) == all);
            assert forall|k: int| 0 <= k < all.len() implies sliceable_token(b, #[trigger] all[k]) by {
                if k > 0 {
                    assert(all[k] == rest[k - 1]);
                }
            }
        }
    }
}

/// In a UTF-8 text, every token other than `Unknown` that ends within the
/// text covers whole characters.
pub proof fn lemma_json_tokens_sliceable(b: Seq<u8>)
    requires
        valid_utf8(b),
        b.len() < usize::MAX,
    ensures
        forall|k: int| 0 <= k < json_tokens(b).len() ==> sliceable_token(b, #[trigger] json_tokens(b)[k]),
{
    lemma_json_lex_sliceable(b, 0);
}

/// The tokens of a JSON text lie in it in order, without overlap.
pub proof fn lemma_json_tokens_in_order(b: Seq<u8>)
    requires
        b.len() < usize::MAX,
    ensures
        json_spans_in_order(json_tokens(b), b.len() as int),
{
    lemma_json_lex_in_order(b, 0);
}

pub struct JsonLexer;

impl JsonLexer {
    /// Splits `input` into tokens; whitespace between them is dropped.
    pub fn tokenize(&self, input: &str) -> (tokens: Vec<Token>)
        requires
            input.spec_bytes().len() < usize::MAX,
        ensures
            tokens@ == json_tokens(input.spec_bytes()),
    {
        let bytes = input.as_bytes();
        let ghost b = bytes@;
        let mut tokens: Vec<Token> = Vec::new();
        let mut index: usize = 0;
        while index < bytes.len()
            invariant
                b == bytes@,
                b == input.spec_bytes(),
                b.len() < usize::MAX,
                index <= b.len() + 1,
                tokens@ + json_lex(b, index as int) == json_lex(b, 0),
            decreases b.len() + 1 - index,
        {
            let ghost before = tokens@;
            let ghost step = json_step(b, index as int);
            proof {
                lemma_json_step(b, index as int);
            }
            let byte = bytes[index];
            if byte == 123u8 {
                tokens.push(Token { kind: TokenKind::LeftBrace, span: Span::new(index, index + 1) });
                index += 1;
            } else if byte == 125u8 {
                tokens.push(Token { kind: TokenKind::RightBrace, span: Span::new(index, index + 1) });
                index += 1;
            } else if byte == 91u8 {
                tokens.push(
                    Token { kind: TokenKind::LeftBracket, span: Span::new(index, index + 1) },
                );
                index += 1;
            } else if byte == 93u8 {
                tokens.push(
                    Token { kind: TokenKind::RightBracket, span: Span::new(index, index + 1) },
                );
                index += 1;
            } else if byte == 58u8 {
                tokens.push(Token { kind: TokenKind::Colon, span: Span::new(index, index + 1) });
                index += 1;
            } else if byte == 44u8 {
                tokens.push(Token { kind: TokenKind::Comma, span: Span::new(index, index + 1) });
                index += 1;
            } else if byte == 34u8 {
                let start = index;
                index += 1;
                while index < bytes.len()
                    invariant_except_break
                        string_end(b, index as int) == string_end(b, start + 1),
                    invariant
                        b == bytes@,
                        b.len() < usize::MAX,
                        start < index <= b.len() + 1,
                    ensures
                        index == string_end(b, start + 1),
                    decreases b.len() + 1 - index,
                {
                    if bytes[index] == 92u8 {
                        index += 2;
                    } else if bytes[index] == 34u8 {
                        index += 1;
                        break;
                    } else {
                        index += 1;
                    }
                }
                assert(index == string_end(b, start + 1));
                tokens.push(Token { kind: TokenKind::String, span: Span::new(start, index) });
            } else if byte == 45u8 || (48u8 <= byte && byte <= 57u8) {
                let start = index;
                while index < bytes.len() && !(bytes[index] == 44u8 || bytes[index] == 125u8
                    || bytes[index] == 93u8 || bytes[index] == 32u8 || bytes[index] == 10u8
                    || bytes[index] == 13u8 || bytes[index] == 9u8)
                    invariant
                        b == bytes@,
                        start <= index <= b.len(),
                        number_end(b, index as int) == number_end(b, start as int),
                    decreases b.len() - index,
                {
                    index += 1;
                }
                tokens.push(Token { kind: TokenKind::Number, span: Span::new(start, index) });
            } else if byte == 116u8 && bytes.len() - index >= 4 && bytes[index + 1] == 114u8
                && bytes[index + 2] == 117u8 && bytes[index + 3] == 101u8 {
                assert(b.subrange(index as int, index + 4) =~= true_bytes());
                tokens.push(Token { kind: TokenKind::True, span: Span::new(index, index + 4) });
                index += 4;
            } else if byte == 102u8 && bytes.len() - index >= 5 && bytes[index + 1] == 97u8
                && bytes[index + 2] == 108u8 && bytes[index + 3] == 115u8 && bytes[index + 4]
                == 101u8 {
                assert(b.subrange(index as int, index + 5) =~= false_bytes());
                tokens.push(Token { kind: TokenKind::False, span: Span::new(index, index + 5) });
                index += 5;
            } else if byte == 110u8 && bytes.len() - index >= 4 && bytes[index + 1] == 117u8
                && bytes[index + 2] == 108u8 && bytes[index + 3] == 108u8 {
                assert(b.subrange(index as int, index + 4) =~= null_bytes());
                tokens.push(Token { kind: TokenKind::Null, span: Span::new(index, index + 4) });
                index += 4;
            } else if byte == 32u8 || byte == 10u8 || byte == 13u8 || byte == 9u8 {
                proof {
                    if byte == 116u8 {
                        assert(!literal_at(b, index as int, true_bytes())) by {
                            if literal_at(b, index as int, true_bytes()) {
                                assert(b.subrange(index as int, index + 4)[1] == 114u8);
                            }
                        }
                    }
                }
                index += 1;
            } else {
                proof {
                    if byte == 116u8 && literal_at(b, index as int, true_bytes()) {
                        assert(b.subrange(index as int, index + 4)[1] == b[index + 1]);
                        assert(b.subrange(index as int, index + 4)[2] == b[index + 2]);
                        assert(b.subrange(index as int, index + 4)[3] == b[index + 3]);
                    }
                    if byte == 102u8 && literal_at(b, index as int, false_bytes()) {
                        assert(b.subrange(index as int, index + 5)[1] == b[index + 1]);
                        assert(b.subrange(index as int, index + 5)[2] == b[index + 2]);
                        assert(b.subrange(index as int, index + 5)[3] == b[index + 3]);
                        assert(b.subrange(index as int, index + 5)[4] == b[index + 4]);
                    }
                    if byte == 110u8 && literal_at(b, index as int, null_bytes()) {
                        assert(b.subrange(index as int, index + 4)[1] == b[index + 1]);
                        assert(b.subrange(index as int, index + 4)[2] == b[index + 2]);
                        assert(b.subrange(index as int, index + 4)[3] == b[index + 3]);
                    }
                }
                tokens.push(Token { kind: TokenKind::Unknown, span: Span::new(index, index + 1) });
                index += 1;
            }
            proof {
                assert(index == step.1);
                assert(json_lex(b, before.len() as int) == json_lex(b, before.len() as int));
            }
        }
        tokens
    }
}

} // verus!

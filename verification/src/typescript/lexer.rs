//! Splits TypeScript source into tokens.
use vstd::prelude::*;
use vstd::string::StringSliceAdditionalSpecFns;
use crate::span::Span;

verus! {

broadcast use vstd::seq::group_seq_axioms;

#[derive(Debug, Clone, Copy, PartialEq, Eq, Structural)]
pub struct TypeScriptToken {
    pub kind: TypeScriptTokenKind,
    pub span: Span,
}

#[derive(Debug, Clone, Copy, PartialEq, Eq, Structural)]
pub enum TypeScriptTokenKind {
    Identifier,
    String,
    Number,
    Import,
    Export,
    Const,
    Let,
    Var,
    Function,
    Class,
    Interface,
    Type,
    Enum,
    OpenBrace,
    CloseBrace,
    OpenParen,
    CloseParen,
    OpenBracket,
    CloseBracket,
    Colon,
    Comma,
    Semicolon,
    Dot,
    Question,
    Equals,
    Arrow,
    LineComment,
    BlockComment,
    Newline,
    Unknown,
    Boolean,
}

pub open spec fn ts_token(kind: TypeScriptTokenKind, start: int, end: int) -> TypeScriptToken {
    TypeScriptToken { kind, span: Span { start: start as usize, end: end as usize } }
}

/// `u8::is_ascii_whitespace`: space, tab, line feed, form feed, carriage return.
pub open spec fn is_ascii_ws(c: u8) -> bool {
    c == 32 || c == 9 || c == 10 || c == 12 || c == 13
}

pub open spec fn is_digit(c: u8) -> bool {
    48 <= c <= 57
}

pub open spec fn is_alpha(c: u8) -> bool {
    (65 <= c <= 90) || (97 <= c <= 122)
}

/// A byte that can start an identifier: a letter, `_` or `$`.
pub open spec fn ident_start(c: u8) -> bool {
    is_alpha(c) || c == 95 || c == 36
}

/// A byte that can continue an identifier: a letter, a digit, `_` or `$`.
pub open spec fn ident_continue(c: u8) -> bool {
    is_alpha(c) || is_digit(c) || c == 95 || c == 36
}

fn is_ascii_whitespace(c: u8) -> (r: bool)
    ensures
        r == is_ascii_ws(c),
{
    c == 32u8 || c == 9u8 || c == 10u8 || c == 12u8 || c == 13u8
}

fn is_ascii_digit(c: u8) -> (r: bool)
    ensures
        r == is_digit(c),
{
    48u8 <= c && c <= 57u8
}

fn is_identifier_start(c: u8) -> (r: bool)
    ensures
        r == ident_start(c),
{
    (65u8 <= c && c <= 90u8) || (97u8 <= c && c <= 122u8) || c == 95u8 || c == 36u8
}

fn is_identifier_continue(c: u8) -> (r: bool)
    ensures
        r == ident_continue(c),
{
    (65u8 <= c && c <= 90u8) || (97u8 <= c && c <= 122u8) || (48u8 <= c && c <= 57u8) || c == 95u8
        || c == 36u8
}

/// Where a line comment whose text goes on at `j` ends: at the next newline.
pub open spec fn line_comment_end(b: Seq<u8>, j: int) -> int
    decreases b.len() - j,
{
    if j < 0 || j >= b.len() || b[j] == 10 {
        j
    } else {
        line_comment_end(b, j + 1)
    }
}

/// Where a block comment whose text goes on at `j` ends: just past `*/`, or at
/// the last byte when it is unterminated.
pub open spec fn block_comment_end(b: Seq<u8>, j: int) -> int
    decreases b.len() - j,
{
    if j < 0 || j + 1 >= b.len() {
        j
    } else if b[j] == 42 && b[j + 1] == 47 {
        j + 2
    } else {
        block_comment_end(b, j + 1)
    }
}

/// Where a string whose text goes on at `j` and that opened with `q` ends:
/// just past the next `q`, or at the end of the text.
pub open spec fn quote_end(b: Seq<u8>, j: int, q: u8) -> int
    decreases b.len() - j,
{
    if j < 0 || j >= b.len() {
        j
    } else if b[j] == q {
        j + 1
    } else {
        quote_end(b, j + 1, q)
    }
}

/// Where a run of digits from `j` ends.
pub open spec fn digits_end(b: Seq<u8>, j: int) -> int
    decreases b.len() - j,
{
    if j < 0 || j >= b.len() || !is_digit(b[j]) {
        j
    } else {
        digits_end(b, j + 1)
    }
}

/// Where an identifier that goes on at `j` ends.
pub open spec fn ident_end(b: Seq<u8>, j: int) -> int
    decreases b.len() - j,
{
    if j < 0 || j >= b.len() || !ident_continue(b[j]) {
        j
    } else {
        ident_end(b, j + 1)
    }
}

/// The kind of an identifier-like word: a keyword, a boolean literal or an
/// identifier.
pub open spec fn keyword_kind(w: Seq<u8>) -> TypeScriptTokenKind {
    if w == seq![105u8, 109, 112, 111, 114, 116] {
        TypeScriptTokenKind::Import
    } else if w == seq![101u8, 120, 112, 111, 114, 116] {
        TypeScriptTokenKind::Export
    } else if w == seq![99u8, 111, 110, 115, 116] {
        TypeScriptTokenKind::Const
    } else if w == seq![108u8, 101, 116] {
        TypeScriptTokenKind::Let
    } else if w == seq![118u8, 97, 114] {
        TypeScriptTokenKind::Var
    } else if w == seq![102u8, 117, 110, 99, 116, 105, 111, 110] {
        TypeScriptTokenKind::Function
    } else if w == seq![99u8, 108, 97, 115, 115] {
        TypeScriptTokenKind::Class
    } else if w == seq![105u8, 110, 116, 101, 114, 102, 97, 99, 101] {
        TypeScriptTokenKind::Interface
    } else if w == seq![116u8, 121, 112, 101] {
        TypeScriptTokenKind::Type
    } else if w == seq![101u8, 110, 117, 109] {
        TypeScriptTokenKind::Enum
    } else if w == seq![116u8, 114, 117, 101] || w == seq![102u8, 97, 108, 115, 101] {
        TypeScriptTokenKind::Boolean
    } else {
        TypeScriptTokenKind::Identifier
    }
}

/// The kind of a one-byte punctuation token.
pub open spec fn punct_kind(c: u8) -> TypeScriptTokenKind {
    if c == 123 {
        TypeScriptTokenKind::OpenBrace
    } else if c == 125 {
        TypeScriptTokenKind::CloseBrace
    } else if c == 40 {
        TypeScriptTokenKind::OpenParen
    } else if c == 41 {
        TypeScriptTokenKind::CloseParen
    } else if c == 91 {
        TypeScriptTokenKind::OpenBracket
    } else if c == 93 {
        TypeScriptTokenKind::CloseBracket
    } else if c == 58 {
        TypeScriptTokenKind::Colon
    } else if c == 44 {
        TypeScriptTokenKind::Comma
    } else if c == 59 {
        TypeScriptTokenKind::Semicolon
    } else if c == 46 {
        TypeScriptTokenKind::Dot
    } else if c == 63 {
        TypeScriptTokenKind::Question
    } else if c == 61 {
        TypeScriptTokenKind::Equals
    } else {
        TypeScriptTokenKind::Unknown
    }
}

/// The token that starts at offset `i` (none for whitespace other than a
/// newline) and the offset where lexing goes on.
pub open spec fn ts_step(b: Seq<u8>, i: int) -> (Option<TypeScriptToken>, int) {
    let c = b[i];
    if c == 47 && i + 1 < b.len() && b[i + 1] == 47 {
        let e = line_comment_end(b, i + 2);
        (Some(ts_token(TypeScriptTokenKind::LineComment, i, e)), e)
    } else if c == 47 && i + 1 < b.len() && b[i + 1] == 42 {
        let e = block_comment_end(b, i + 2);
        (Some(ts_token(TypeScriptTokenKind::BlockComment, i, e)), e)
    } else if is_ascii_ws(c) {
        if c == 10 {
            (Some(ts_token(TypeScriptTokenKind::Newline, i, i + 1)), i + 1)
        } else {
            (None, i + 1)
        }
    } else if c == 34 || c == 39 || c == 96 {
        let e = quote_end(b, i + 1, c);
        (Some(ts_token(TypeScriptTokenKind::String, i, e)), e)
    } else if is_digit(c) {
        let e = digits_end(b, i);
        (Some(ts_token(TypeScriptTokenKind::Number, i, e)), e)
    } else if ident_start(c) {
        let e = ident_end(b, i + 1);
        (Some(ts_token(keyword_kind(b.subrange(i, e)), i, e)), e)
    } else if c == 61 && i + 1 < b.len() && b[i + 1] == 62 {
        (Some(ts_token(TypeScriptTokenKind::Arrow, i, i + 2)), i + 2)
    } else {
        (Some(ts_token(punct_kind(c), i, i + 1)), i + 1)
    }
}

pub proof fn lemma_ts_scans(b: Seq<u8>, j: int, q: u8)
    requires
        0 <= j <= b.len(),
    ensures
        j <= line_comment_end(b, j) <= b.len(),
        j <= block_comment_end(b, j) <= b.len(),
        j <= quote_end(b, j, q) <= b.len(),
        j <= digits_end(b, j) <= b.len(),
        j <= ident_end(b, j) <= b.len(),
    decreases b.len() - j,
{
    if j < b.len() {
        lemma_ts_scans(b, j + 1, q);
    }
}

pub proof fn lemma_ts_step(b: Seq<u8>, i: int)
    requires
        0 <= i < b.len(),
    ensures
        i < ts_step(b, i).1 <= b.len(),
{
    lemma_ts_scans(b, i + 1, b[i]);
    if i + 2 <= b.len() {
        lemma_ts_scans(b, i + 2, b[i]);
    }
}

/// The tokens of `b` from offset `i` on.
pub open spec fn ts_lex(b: Seq<u8>, i: int) -> Seq<TypeScriptToken>
    decreases b.len() - i,
    via ts_lex_decreases
{
    if i < 0 || i >= b.len() {
        seq![]
    } else {
        let (t, next) = ts_step(b, i);
        match t {
            Some(t) => seq![t] + ts_lex(b, next),
            None => ts_lex(b, next),
        }
    }
}

#[via_fn]
proof fn ts_lex_decreases(b: Seq<u8>, i: int) {
    if 0 <= i < b.len() {
        lemma_ts_step(b, i);
    }
}

/// The tokens of a TypeScript source.
pub open spec fn ts_tokens(b: Seq<u8>) -> Seq<TypeScriptToken> {
    ts_lex(b, 0)
}

/// Tokens lie in their source in order: each covers a non-empty byte range
/// within the first `n` bytes, and each starts at or after the end of the
/// one before it.
pub open spec fn ts_spans_in_order(toks: Seq<TypeScriptToken>, n: int) -> bool {
    &&& forall|i: int| 0 <= i < toks.len() ==> (#[trigger] toks[i]).span.start < toks[i].span.end <= n
    &&& forall|i: int, j: int|
        0 <= i < j < toks.len() ==> (#[trigger] toks[i]).span.end <= (#[trigger] toks[j]).span.start
}

proof fn lemma_ts_lex_in_order(b: Seq<u8>, i: int)
    requires
        0 <= i <= b.len(),
        b.len() <= usize::MAX,
    ensures
        ts_spans_in_order(ts_lex(b, i), b.len() as int),
        forall|k: int| 0 <= k < ts_lex(b, i).len() ==> (#[trigger] ts_lex(b, i)[k]).span.start >= i,
    decreases b.len() - i,
{
    if i < b.len() {
        lemma_ts_step(b, i);
        let next = ts_step(b, i).1;
        lemma_ts_lex_in_order(b, next);
        let rest = ts_lex(b, next);
        if let Some(t) = ts_step(b, i).0 {
            assert(t.span.start == i && t.span.end == next);
            let all = seq![t] + rest;
            assert(ts_lex(b, i) == all);
            assert forall|k: int| 0 < k < all.len() implies #[trigger] all[k] == rest[k - 1] by {}
            assert forall|x: int, y: int| 0 <= x < y < all.len() implies (#[trigger] all[x]).span.end
                <= (#[trigger] all[y]).span.start by {
                assert(all[y] == rest[y - 1]);
                if x > 0 {
                    assert(all[x] == rest[x - 1]);
                }
            }
        }
    }
}

/// A byte that can stand in a word: an ASCII letter or digit, `_` or `$`.
pub open spec fn word_byte(c: u8) -> bool {
    (65u8 <= c <= 90u8) || (97u8 <= c <= 122u8) || (48u8 <= c <= 57u8) || c == 95u8 || c == 36u8
}

/// A token that starts with a letter, `_` or `$` (an identifier, a keyword or
/// a boolean) is a maximal run of word bytes: every byte in it is a word
/// byte, and the byte after it, if any, is not.
pub open spec fn word_is_maximal(b: Seq<u8>, t: TypeScriptToken) -> bool {
    (t.span.start < b.len() && ((65u8 <= b[t.span.start as int] <= 90u8) || (97u8 <= b[t.span.start as int] <= 122u8)
        || b[t.span.start as int] == 95u8 || b[t.span.start as int] == 36u8)) ==> {
        &&& forall|j: int| t.span.start <= j < t.span.end ==> word_byte(#[trigger] b[j])
        &&& t.span.end < b.len() ==> !word_byte(b[t.span.end as int])
        &&& t.span.start < t.span.end
    }
}

proof fn lemma_ident_end_run(b: Seq<u8>, j: int)
    requires
        0 <= j <= b.len(),
    ensures
        j <= ident_end(b, j) <= b.len(),
        forall|k: int| j <= k < ident_end(b, j) ==> word_byte(#[trigger] b[k]),
        ident_end(b, j) < b.len() ==> !word_byte(b[ident_end(b, j)]),
    decreases b.len() - j,
{
    if j < b.len() && ident_continue(b[j]) {
        lemma_ident_end_run(b, j + 1);
    }
}

proof fn lemma_ts_lex_words(b: Seq<u8>, i: int)
    requires
        0 <= i <= b.len(),
        b.len() <= usize::MAX,
    ensures
        forall|k: int| 0 <= k < ts_lex(b, i).len() ==> word_is_maximal(b, #[trigger] ts_lex(b, i)[k]),
    decreases b.len() - i,
{
    if i < b.len() {
        lemma_ts_step(b, i);
        let next = ts_step(b, i).1;
        lemma_ts_lex_words(b, next);
        let rest = ts_lex(b, next);
        if let Some(t) = ts_step(b, i).0 {
            assert(t.span.start == i && t.span.end == next);
            if ident_start(b[i]) {
                lemma_ident_end_run(b, i + 1);
            }
            let all = seq![t] + rest;
            assert(ts_lex(b, i) == all);
            assert forall|k: int| 0 <= k < all.len() implies word_is_maximal(b, #[trigger] all[k]) by {
                if k > 0 {
                    assert(all[k] == rest[k - 1]);
                }
            }
        }
    }
}

/// Every TypeScript token that starts with a letter, `_` or `$` is a whole
/// word: it holds only letters, digits, `_` and `$`, and no such byte follows
/// it.
pub proof fn lemma_ts_words_maximal(b: Seq<u8>)
    requires
        b.len() <= usize::MAX,
    ensures
        forall|k: int| 0 <= k < ts_tokens(b).len() ==> word_is_maximal(b, #[trigger] ts_tokens(b)[k]),
{
    lemma_ts_lex_words(b, 0);
}

/// The tokens of a TypeScript source lie in it in order, without overlap.
pub proof fn lemma_ts_tokens_in_order(b: Seq<u8>)
    requires
        b.len() <= usize::MAX,
    ensures
        ts_spans_in_order(ts_tokens(b), b.len() as int),
{
    lemma_ts_lex_in_order(b, 0);
}

/// `word` stands at `start..end` of `b`.
fn word_is(b: &[u8], start: usize, end: usize, word: &[u8]) -> (r: bool)
    requires
        start <= end <= b@.len(),
    ensures
        r == (b@.subrange(start as int, end as int) == word@),
{
    if end - start != word.len() {
        return false;
    }
    let mut k: usize = 0;
    while k < word.len()
        invariant
            end - start == word@.len(),
            start <= end <= b@.len(),
            k <= word@.len(),
            forall|m: int| 0 <= m < k ==> b@[start + m] == word@[m],
        decreases word@.len() - k,
    {
        if b[start + k] != word[k] {
            assert(b@.subrange(start as int, end as int)[k as int] != word@[k as int]);
            return false;
        }
        k += 1;
    }
    assert(b@.subrange(start as int, end as int) =~= word@);
    true
}

pub struct TypeScriptLexer;

impl TypeScriptLexer {
    /// Splits `input` into tokens; newlines are tokens, other whitespace is
    /// dropped.
    pub fn tokenize(&self, input: &str) -> (tokens: Vec<TypeScriptToken>)
        ensures
            tokens@ == ts_tokens(input.spec_bytes()),
    {
        let bytes = input.as_bytes();
        let ghost b = bytes@;
        let n = bytes.len();
        let mut tokens: Vec<TypeScriptToken> = Vec::new();
        let mut current: usize = 0;
        while current < n
            invariant
                b == bytes@,
                b == input.spec_bytes(),
                n == b.len(),
                current <= n,
                tokens@ + ts_lex(b, current as int) == ts_lex(b, 0),
            decreases n - current,
        {
            let ghost step = ts_step(b, current as int);
            proof {
                lemma_ts_step(b, current as int);
            }
            let byte = bytes[current];
            let start = current;
            if byte == 47u8 && current + 1 < n && bytes[current + 1] == 47u8 {
                current += 2;
                while current < n && bytes[current] != 10u8
                    invariant
                        b == bytes@,
                        n == b.len(),
                        start + 2 <= current <= n,
                        line_comment_end(b, current as int) == line_comment_end(b, start + 2),
                    decreases n - current,
                {
                    current += 1;
                }
                tokens.push(TypeScriptToken { kind: TypeScriptTokenKind::LineComment, span: Span::new(start, current) });
            } else if byte == 47u8 && current + 1 < n && bytes[current + 1] == 42u8 {
                current += 2;
                while n - current > 1 && !(bytes[current] == 42u8 && bytes[current + 1] == 47u8)
                    invariant
                        b == bytes@,
                        n == b.len(),
                        start + 2 <= current <= n,
                        block_comment_end(b, current as int) == block_comment_end(b, start + 2),
                    decreases n - current,
                {
                    current += 1;
                }
                if n - current > 1 {
                    current += 2;
                }
                tokens.push(TypeScriptToken { kind: TypeScriptTokenKind::BlockComment, span: Span::new(start, current) });
            } else if is_ascii_whitespace(byte) {
                if byte == 10u8 {
                    tokens.push(TypeScriptToken { kind: TypeScriptTokenKind::Newline, span: Span::new(current, current + 1) });
                }
                current += 1;
            } else if byte == 34u8 || byte == 39u8 || byte == 96u8 {
                let quote = byte;
                current += 1;
                while current < n && bytes[current] != quote
                    invariant
                        b == bytes@,
                        n == b.len(),
                        start + 1 <= current <= n,
                        quote_end(b, current as int, quote) == quote_end(b, start + 1, quote),
                    decreases n - current,
                {
                    current += 1;
                }
                if current < n {
                    current += 1;
                }
                tokens.push(TypeScriptToken { kind: TypeScriptTokenKind::String, span: Span::new(start, current) });
            } else if is_ascii_digit(byte) {
                while current < n && is_ascii_digit(bytes[current])
                    invariant
                        b == bytes@,
                        n == b.len(),
                        start <= current <= n,
                        digits_end(b, current as int) == digits_end(b, start as int),
                    decreases n - current,
                {
                    current += 1;
                }
                tokens.push(TypeScriptToken { kind: TypeScriptTokenKind::Number, span: Span::new(start, current) });
            } else if is_identifier_start(byte) {
                current += 1;
                while current < n && is_identifier_continue(bytes[current])
                    invariant
                        b == bytes@,
                        n == b.len(),
                        start + 1 <= current <= n,
                        ident_end(b, current as int) == ident_end(b, start + 1),
                    decreases n - current,
                {
                    current += 1;
                }
                let kind = self.classify_keyword(bytes, start, current);
                tokens.push(TypeScriptToken { kind, span: Span::new(start, current) });
            } else if byte == 61u8 && current + 1 < n && bytes[current + 1] == 62u8 {
                tokens.push(TypeScriptToken { kind: TypeScriptTokenKind::Arrow, span: Span::new(current, current + 2) });
                current += 2;
            } else {
                let kind = if byte == 123u8 {
                    TypeScriptTokenKind::OpenBrace
                } else if byte == 125u8 {
                    TypeScriptTokenKind::CloseBrace
                } else if byte == 40u8 {
                    TypeScriptTokenKind::OpenParen
                } else if byte == 41u8 {
                    TypeScriptTokenKind::CloseParen
                } else if byte == 91u8 {
                    TypeScriptTokenKind::OpenBracket
                } else if byte == 93u8 {
                    TypeScriptTokenKind::CloseBracket
                } else if byte == 58u8 {
                    TypeScriptTokenKind::Colon
                } else if byte == 44u8 {
                    TypeScriptTokenKind::Comma
                } else if byte == 59u8 {
                    TypeScriptTokenKind::Semicolon
                } else if byte == 46u8 {
                    TypeScriptTokenKind::Dot
                } else if byte == 63u8 {
                    TypeScriptTokenKind::Question
                } else if byte == 61u8 {
                    TypeScriptTokenKind::Equals
                } else {
                    TypeScriptTokenKind::Unknown
                };
                tokens.push(TypeScriptToken { kind, span: Span::new(current, current + 1) });
                current += 1;
            }
            assert(current == step.1);
        }
        tokens
    }

    /// The kind of the word at `start..end` of `b`.
    fn classify_keyword(&self, b: &[u8], start: usize, end: usize) -> (k: TypeScriptTokenKind)
        requires
            start <= end <= b@.len(),
        ensures
            k == keyword_kind(b@.subrange(start as int, end as int)),
    {
        let ghost w = b@.subrange(start as int, end as int);
        if word_is(b, start, end, &[105u8, 109, 112, 111, 114, 116]) {
            TypeScriptTokenKind::Import
        } else if word_is(b, start, end, &[101u8, 120, 112, 111, 114, 116]) {
            TypeScriptTokenKind::Export
        } else if word_is(b, start, end, &[99u8, 111, 110, 115, 116]) {
            TypeScriptTokenKind::Const
        } else if word_is(b, start, end, &[108u8, 101, 116]) {
            TypeScriptTokenKind::Let
        } else if word_is(b, start, end, &[118u8, 97, 114]) {
            TypeScriptTokenKind::Var
        } else if word_is(b, start, end, &[102u8, 117, 110, 99, 116, 105, 111, 110]) {
            TypeScriptTokenKind::Function
        } else if word_is(b, start, end, &[99u8, 108, 97, 115, 115]) {
            TypeScriptTokenKind::Class
        } else if word_is(b, start, end, &[105u8, 110, 116, 101, 114, 102, 97, 99, 101]) {
            TypeScriptTokenKind::Interface
        } else if word_is(b, start, end, &[116u8, 121, 112, 101]) {
            TypeScriptTokenKind::Type
        } else if word_is(b, start, end, &[101u8, 110, 117, 109]) {
            TypeScriptTokenKind::Enum
        } else if word_is(b, start, end, &[116u8, 114, 117, 101]) || word_is(b, start, end, &[102u8, 97, 108, 115, 101]) {
            TypeScriptTokenKind::Boolean
        } else {
            TypeScriptTokenKind::Identifier
        }
    }
}

} // verus!

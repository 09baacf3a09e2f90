//! JSON: lexer, syntax parser and chunker.
pub mod chunker;
pub mod lexer;
pub mod syntax;
pub mod token;

pub use chunker::JsonChunker;
pub use lexer::JsonLexer;
pub use syntax::JsonSyntaxParser;
pub use token::{Token, TokenKind};

use vstd::prelude::*;
use crate::chunk::{chunks_view, CodeChunk};
use crate::chunking::{all_renderable, render_all};
use crate::error::ParseError;
use crate::formatter::Formatter;
use crate::language::Language;
use crate::source::Source;
use crate::json::chunker::{json_raw_chunks, lemma_json_chunks_renderable};
use crate::json::lexer::{json_tokens, lemma_json_tokens_in_order, lemma_json_tokens_sliceable};
use crate::json::syntax::{json_parse, lemma_json_parse_safe, tokens_fit, JsonHalt};
use vstd::utf8::valid_utf8;
use vstd::string::StringSliceAdditionalSpecFns;
use crate::text::lemma_str_bytes;
use crate::syntax::node_view;

verus! {

/// What the JSON formatter gives for the bytes `b`: the chunks of the parse
/// tree of the tokens of `b`, or the parse error.
pub open spec fn json_chunks_of(b: Seq<u8>) -> Result<Seq<crate::chunk::SpecChunk>, JsonHalt> {
    match json_parse(json_tokens(b), b) {
        Ok(tree) => Ok(render_all(json_raw_chunks(tree), b, Language::Json)),
        Err(h) => Err(h),
    }
}

/// The JSON texts the formatter processes without panicking: parsing reaches
/// no key that cannot be sliced out of the text, and every chunk of a parse
/// tree can be sliced out of it.
pub open spec fn json_accepts(b: Seq<u8>) -> bool {
    &&& b.len() < usize::MAX
    &&& !(json_parse(json_tokens(b), b) matches Err(JsonHalt::Panic))
    &&& (json_parse(json_tokens(b), b) matches Ok(tree) ==> all_renderable(json_raw_chunks(tree), b))
}

/// Every UTF-8 JSON text is formatted without panicking, except one whose
/// last token is a string that runs one byte past the end: a text that ends
/// inside a string right after a backslash.
pub proof fn lemma_json_formatter_total(b: Seq<u8>)
    requires
        valid_utf8(b),
        b.len() < usize::MAX,
    ensures
        json_accepts(b) || (json_tokens(b).len() > 0 && json_tokens(b).last().span.end == b.len() + 1),
{
    let toks = json_tokens(b);
    lemma_json_tokens_in_order(b);
    lemma_json_tokens_sliceable(b);
    if forall|k: int| 0 <= k < toks.len() ==> (#[trigger] toks[k]).span.end <= b.len() {
        assert(tokens_fit(toks, b));
        lemma_json_parse_safe(toks, b);
        if let Ok(tree) = json_parse(toks, b) {
            lemma_json_chunks_renderable(tree, b);
        }
    } else {
        let k = choose|k: int| 0 <= k < toks.len() && !((#[trigger] toks[k]).span.end <= b.len());
        assert(k == toks.len() - 1);
    }
}

pub struct JsonFormatter;

impl JsonFormatter {
    /// Formats `source` where that cannot panic: `None` for a text that ends
    /// inside a string right after a backslash (its last token runs one byte
    /// past the end) or that is too long to index; otherwise what `parse`
    /// gives.
    pub fn parse_checked(&self, source: &Source) -> (r: Option<Result<Vec<CodeChunk>, ParseError>>)
        ensures
            r is None <==> (source.text().len() >= usize::MAX || (json_tokens(source.text()).len() > 0
                && json_tokens(source.text()).last().span.end == source.text().len() + 1)),
            r matches Some(res) ==> json_accepts(source.text()) && match json_chunks_of(source.text()) {
                Ok(chunks) => res matches Ok(c) && chunks_view(c@) == chunks,
                Err(JsonHalt::Error(e)) => res matches Err(err) && err@ == e,
                Err(JsonHalt::Panic) => false,
            },
    {
        let content = source.content();
        let bytes = content.as_bytes();
        let n = bytes.len();
        if n == usize::MAX {
            return None;
        }
        let lexer = JsonLexer;
        let tokens = lexer.tokenize(content);
        proof {
            lemma_json_tokens_in_order(content.spec_bytes());
        }
        if tokens.len() > 0 && tokens[tokens.len() - 1].span.end > n {
            return None;
        }
        proof {
            lemma_str_bytes(content);
            lemma_json_formatter_total(content.spec_bytes());
        }
        Some(self.parse(source))
    }
}

impl Formatter for JsonFormatter {
    open spec fn accepts(&self, text: Seq<u8>) -> bool {
        json_accepts(text)
    }

    fn language(&self) -> (l: Language)
        ensures
            l == Language::Json,
    {
        Language::Json
    }

    fn parse(&self, source: &Source) -> (r: Result<Vec<CodeChunk>, ParseError>)
        ensures
            match json_chunks_of(source.text()) {
                Ok(chunks) => r matches Ok(c) && chunks_view(c@) == chunks,
                Err(JsonHalt::Error(e)) => r matches Err(err) && err@ == e,
                Err(JsonHalt::Panic) => false,
            },
    {
        let lexer = JsonLexer;
        let tokens = lexer.tokenize(source.content());
        let parser = JsonSyntaxParser::new(tokens.as_slice(), source.content());
        let tree = match parser.parse() {
            Ok(tree) => tree,
            Err(e) => return Err(e),
        };
        let chunker = JsonChunker;
        Ok(chunker.chunk(&tree, source))
    }
}

} // verus!

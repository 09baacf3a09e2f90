//! YAML: lexer, syntax parser and chunker.
pub mod chunker;
pub mod lexer;
pub mod syntax;

pub use chunker::YamlChunker;
pub use lexer::{YamlLexer, YamlToken, YamlTokenKind};
pub use syntax::YamlSyntaxParser;

use vstd::prelude::*;
use crate::chunk::{chunks_view, CodeChunk};
use crate::chunking::{all_renderable, render_all};
use crate::error::ParseError;
use crate::formatter::Formatter;
use crate::language::Language;
use crate::source::Source;
use crate::yaml::chunker::{lemma_yaml_chunks_renderable, yaml_raw_chunks};
use crate::yaml::lexer::yaml_tokens;
use crate::yaml::syntax::{lemma_yaml_parse_total, yaml_parse};
use crate::syntax::{node_spans_ok, node_view, spans_sliceable};
use crate::text::lemma_str_bytes;
use vstd::string::StringSliceAdditionalSpecFns;

verus! {

/// What the YAML formatter gives for the bytes `b`: the chunks of the parse
/// tree of the tokens of `b` (YAML parsing never reports an error).
pub open spec fn yaml_chunks_of(b: Seq<u8>) -> Seq<crate::chunk::SpecChunk>
    recommends
        yaml_parse(yaml_tokens(b), b) is Ok,
{
    render_all(yaml_raw_chunks(yaml_parse(yaml_tokens(b), b).unwrap()), b, Language::Yaml)
}

/// The YAML texts the formatter processes without panicking: parsing never
/// steps past the last token or slices a key out of range, and every chunk of
/// the parse tree can be sliced out of the text.
pub open spec fn yaml_accepts(b: Seq<u8>) -> bool {
    &&& b.len() < usize::MAX
    &&& yaml_parse(yaml_tokens(b), b) is Ok
    &&& all_renderable(yaml_raw_chunks(yaml_parse(yaml_tokens(b), b).unwrap()), b)
}

pub struct YamlFormatter;

impl YamlFormatter {
    /// Formats `source` where rendering its chunks cannot panic: `None` for
    /// a text too long to index, and for one whose tree has a node that does
    /// not cover whole characters of the text (as a `- key :value` line can
    /// give, whose value's span is moved back by the whitespace before the
    /// colon); otherwise what `parse` gives. Parsing itself never panics
    /// (`lemma_yaml_parse_total`).
    pub fn parse_checked(&self, source: &Source) -> (r: Option<Result<Vec<CodeChunk>, ParseError>>)
        ensures
            r is None <==> (source.text().len() >= usize::MAX || !spans_sliceable(
                yaml_parse(yaml_tokens(source.text()), source.text()).unwrap(),
                source.text(),
            )),
            r matches Some(res) ==> (yaml_accepts(source.text()) && (res matches Ok(c) && chunks_view(c@)
                == yaml_chunks_of(source.text()))),
    {
        let content = source.content();
        let bytes = content.as_bytes();
        if bytes.len() == usize::MAX {
            return None;
        }
        proof {
            lemma_str_bytes(content);
            lemma_yaml_parse_total(content.spec_bytes());
        }
        let lexer = YamlLexer;
        let tokens = lexer.tokenize(content);
        let parser = YamlSyntaxParser::new(tokens.as_slice(), content);
        let tree = parser.parse();
        if !node_spans_ok(&tree, bytes) {
            return None;
        }
        proof {
            lemma_yaml_chunks_renderable(node_view(tree), bytes@);
        }
        Some(self.parse(source))
    }
}

impl Formatter for YamlFormatter {
    open spec fn accepts(&self, text: Seq<u8>) -> bool {
        yaml_accepts(text)
    }

    fn language(&self) -> (l: Language)
        ensures
            l == Language::Yaml,
    {
        Language::Yaml
    }

    fn parse(&self, source: &Source) -> (r: Result<Vec<CodeChunk>, ParseError>)
        ensures
            r matches Ok(c) && chunks_view(c@) == yaml_chunks_of(source.text()),
    {
        let lexer = YamlLexer;
        let tokens = lexer.tokenize(source.content());
        let parser = YamlSyntaxParser::new(tokens.as_slice(), source.content());
        let tree = parser.parse();
        let chunker = YamlChunker;
        Ok(chunker.chunk(&tree, source))
    }
}

} // verus!

//! Code Weave: turns JSON, YAML and TypeScript sources into syntax trees and
//! structured code chunks that keep their paths, spans and source text.
pub mod chunk;
pub mod chunking;
pub mod diagnostic;
pub mod error;
pub mod formatter;
pub mod json;
pub mod language;
pub mod path;
pub mod source;
pub mod span;
pub mod syntax;
pub mod text;
pub mod typescript;
pub mod whitespace;
pub mod yaml;

pub use chunk::{ChunkKind, CodeChunk};
pub use diagnostic::Diagnostic;
pub use error::{ParseError, ParseErrorKind};
pub use formatter::{Formatter, Parser};
pub use language::Language;
pub use path::ChunkPath;
pub use source::Source;
pub use span::{Position, Span};
pub use syntax::{SyntaxKind, SyntaxNode};

//! The interface a format implements to turn a source into chunks.
use vstd::prelude::*;
use crate::chunk::CodeChunk;
use crate::error::ParseError;
use crate::language::Language;
use crate::source::Source;

verus! {

/// A format that cuts sources into chunks. `accepts` tells which source texts
/// the format can process without panicking.
pub trait Formatter {
    spec fn accepts(&self, text: Seq<u8>) -> bool;

    fn language(&self) -> Language;

    fn parse(&self, source: &Source) -> Result<Vec<CodeChunk>, ParseError>
        requires
            self.accepts(source.text()),
    ;
}

/// The same interface, for parsers of a language.
pub trait Parser {
    spec fn accepts(&self, text: Seq<u8>) -> bool;

    fn language(&self) -> Language;

    fn parse(&self, source: &Source) -> Result<Vec<CodeChunk>, ParseError>
        requires
            self.accepts(source.text()),
    ;
}

} // verus!

//! Code chunks: the structural pieces a source file is cut into.
use vstd::prelude::*;
use crate::language::Language;
use crate::path::ChunkPath;
use crate::syntax::opt_string_view;

verus! {

#[derive(Debug, Clone, Copy, PartialEq, Eq, Structural)]
pub enum ChunkKind {
    File,
    Module,
    Namespace,
    Class,
    Interface,
    Struct,
    Enum,
    Function,
    Method,
    Object,
    Array,
    Property,
    Field,
    Variable,
    Constant,
    Section,
    Block,
}

/// A structural piece of a source file, with where it sits in the file's
/// hierarchy and the lines and text it covers.
#[derive(Debug, Clone, PartialEq, Eq)]
pub struct CodeChunk {
    pub kind: ChunkKind,
    pub name: Option<String>,
    pub parent: Option<ChunkPath>,
    pub path: Option<ChunkPath>,
    pub language: Language,
    pub start_line: usize,
    pub end_line: usize,
    pub content: String,
}

/// The mathematical value of a chunk.
pub struct SpecChunk {
    pub kind: ChunkKind,
    pub name: Option<Seq<char>>,
    pub parent: Option<Seq<char>>,
    pub path: Option<Seq<char>>,
    pub language: Language,
    pub start_line: usize,
    pub end_line: usize,
    pub content: Seq<char>,
}

pub open spec fn opt_path_view(p: Option<ChunkPath>) -> Option<Seq<char>> {
    match p {
        Some(p) => Some(p@),
        None => None,
    }
}

impl View for CodeChunk {
    type V = SpecChunk;

    open spec fn view(&self) -> SpecChunk {
        SpecChunk {
            kind: self.kind,
            name: opt_string_view(self.name),
            parent: opt_path_view(self.parent),
            path: opt_path_view(self.path),
            language: self.language,
            start_line: self.start_line,
            end_line: self.end_line,
            content: self.content@,
        }
    }
}

/// The values of a list of chunks.
pub open spec fn chunks_view(chunks: Seq<CodeChunk>) -> Seq<SpecChunk> {
    chunks.map_values(|c: CodeChunk| c@)
}

} // verus!

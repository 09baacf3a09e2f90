//! Dotted and indexed paths that locate a chunk within its file.
use vstd::prelude::*;
use vstd::string::StringExecFns;

verus! {

/// A path such as `users[0].profile`.
#[derive(Debug, Clone, PartialEq, Eq, Hash)]
pub struct ChunkPath(String);

impl View for ChunkPath {
    type V = Seq<char>;

    closed spec fn view(&self) -> Seq<char> {
        self.0@
    }
}

impl ChunkPath {
    pub fn new(value: &str) -> (p: ChunkPath)
        ensures
            p@ == value@,
    {
        ChunkPath(String::from_str(value))
    }

    /// Wraps an owned string.
    pub fn from_string(value: String) -> (p: ChunkPath)
        ensures
            p@ == value@,
    {
        ChunkPath(value)
    }

    pub fn as_str(&self) -> (s: &str)
        ensures
            s@ == self@,
    {
        self.0.as_str()
    }

    pub fn is_empty(&self) -> (b: bool)
        ensures
            b == (self@.len() == 0),
    {
        self.0.as_str().is_empty()
    }
}

impl From<String> for ChunkPath {
    fn from(value: String) -> (p: ChunkPath)
        ensures
            p@ == value@,
    {
        ChunkPath(value)
    }
}

impl vstd::std_specs::convert::FromSpecImpl<String> for ChunkPath {
    open spec fn obeys_from_spec() -> bool {
        true
    }

    closed spec fn from_spec(v: String) -> ChunkPath {
        ChunkPath(v)
    }
}

impl<'a> From<&'a str> for ChunkPath {
    fn from(value: &'a str) -> (p: ChunkPath)
        ensures
            p@ == value@,
    {
        ChunkPath::new(value)
    }
}

impl<'a> vstd::std_specs::convert::FromSpecImpl<&'a str> for ChunkPath {
    open spec fn obeys_from_spec() -> bool {
        false
    }

    closed spec fn from_spec(v: &'a str) -> ChunkPath {
        choose|p: ChunkPath| p@ == v@
    }
}

} // verus!

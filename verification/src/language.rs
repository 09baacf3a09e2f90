//! The languages and data formats that chunks can come from.
use vstd::prelude::*;

verus! {

#[derive(Debug, Clone, Copy, PartialEq, Eq, Hash, Structural)]
pub enum Language {
    Json,
    Yaml,
    TypeScript,
    JavaScript,
    Rust,
    Python,
    Java,
}

/// The lower-case name of a language.
pub open spec fn language_name(language: Language) -> Seq<char> {
    match language {
        Language::Json => "json"@,
        Language::Yaml => "yaml"@,
        Language::TypeScript => "typescript"@,
        Language::JavaScript => "javascript"@,
        Language::Rust => "rust"@,
        Language::Python => "python"@,
        Language::Java => "java"@,
    }
}

impl Language {
    pub fn as_str(self) -> (s: &'static str)
        ensures
            s@ == language_name(self),
    {
        match self {
            Language::Json => "json",
            Language::Yaml => "yaml",
            Language::TypeScript => "typescript",
            Language::JavaScript => "javascript",
            Language::Rust => "rust",
            Language::Python => "python",
            Language::Java => "java",
        }
    }
}

} // verus!

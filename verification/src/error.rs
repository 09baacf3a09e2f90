//! Errors that parsers report.
use vstd::prelude::*;
use vstd::string::StringExecFns;
use crate::diagnostic::Diagnostic;
use crate::source::{position_fits, Source};
use crate::span::Span;

verus! {

#[derive(Debug, Clone, PartialEq, Eq)]
pub struct ParseError {
    pub kind: ParseErrorKind,
    pub message: String,
    pub span: Option<Span>,
}

#[derive(Debug, Clone, Copy, PartialEq, Eq, Structural)]
pub enum ParseErrorKind {
    UnexpectedToken,
    UnexpectedEndOfInput,
    InvalidSyntax,
}

/// The mathematical value of a parse error.
pub struct SpecParseError {
    pub kind: ParseErrorKind,
    pub message: Seq<char>,
    pub span: Option<Span>,
}

impl View for ParseError {
    type V = SpecParseError;

    open spec fn view(&self) -> SpecParseError {
        SpecParseError { kind: self.kind, message: self.message@, span: self.span }
    }
}

impl ParseError {
    /// A token that does not fit where it stands.
    pub fn unexpected_token(message: &str, span: Span) -> (e: ParseError)
        ensures
            e@ == (SpecParseError {
                kind: ParseErrorKind::UnexpectedToken,
                message: message@,
                span: Some(span),
            }),
    {
        ParseError {
            kind: ParseErrorKind::UnexpectedToken,
            message: String::from_str(message),
            span: Some(span),
        }
    }

    /// The input ended where more was expected.
    pub fn unexpected_end_of_input(message: &str) -> (e: ParseError)
        ensures
            e@ == (SpecParseError {
                kind: ParseErrorKind::UnexpectedEndOfInput,
                message: message@,
                span: None,
            }),
    {
        ParseError {
            kind: ParseErrorKind::UnexpectedEndOfInput,
            message: String::from_str(message),
            span: None,
        }
    }

    /// The input is malformed in a way no single token shows.
    pub fn invalid_syntax(message: &str) -> (e: ParseError)
        ensures
            e@ == (SpecParseError {
                kind: ParseErrorKind::InvalidSyntax,
                message: message@,
                span: None,
            }),
    {
        ParseError {
            kind: ParseErrorKind::InvalidSyntax,
            message: String::from_str(message),
            span: None,
        }
    }

    /// A diagnostic for this error against `source`.
    pub fn diagnostic(&self, source: &Source) -> (d: Diagnostic)
        requires
            self.span matches Some(span) ==> position_fits(source.text(), span.start),
            source.text().len() < usize::MAX,
        ensures
            d@ == Diagnostic::spec_from_error(source.text(), self@),
    {
        Diagnostic::from_error(source, self)
    }
}

} // verus!

//! Human-readable reports of parse errors.
use vstd::prelude::*;
use vstd::string::{StringExecFns, StringSliceAdditionalSpecFns};
use vstd::utf8::*;
use crate::error::{ParseError, SpecParseError};
use crate::source::{lemma_position_in_line, line_range, line_starts_of, lemma_line_starts, position_fits, position_of, Source};
use crate::text::{lemma_ascii_is_boundary, lemma_str_bytes, slice_str, text_of};

verus! {

broadcast use vstd::seq::group_seq_axioms;

#[derive(Debug, Clone, PartialEq, Eq)]
pub struct Diagnostic {
    pub message: String,
    pub line: usize,
    pub column: usize,
    pub source_line: String,
}

pub struct SpecDiagnostic {
    pub message: Seq<char>,
    pub line: usize,
    pub column: usize,
    pub source_line: Seq<char>,
}

impl View for Diagnostic {
    type V = SpecDiagnostic;

    open spec fn view(&self) -> SpecDiagnostic {
        SpecDiagnostic {
            message: self.message@,
            line: self.line,
            column: self.column,
            source_line: self.source_line@,
        }
    }
}

/// The text of the 1-based line `line` as `str::lines` yields it: without its
/// line ending, where a line ended by `"\r\n"` also loses the `'\r'`; the empty
/// text where there is no such line (the empty segment after a final newline
/// is not a line).
pub open spec fn lines_entry(b: Seq<u8>, line: int) -> Seq<char> {
    let starts = line_starts_of(b);
    match line_range(b, line) {
        None => seq![],
        Some((s, e)) => if line < starts.len() && e > s && b[e - 1] == 13 {
            text_of(b, s, e - 1)
        } else {
            text_of(b, s, e)
        },
    }
}

impl Diagnostic {
    /// What `from_error` reports: the error's message, the line and column
    /// where its span starts (0 and 0 without a span) and that line's text.
    pub open spec fn spec_from_error(b: Seq<u8>, error: SpecParseError) -> SpecDiagnostic {
        match error.span {
            Some(span) => {
                let p = position_of(b, span.start);
                SpecDiagnostic {
                    message: error.message,
                    line: p.line,
                    column: p.column,
                    source_line: lines_entry(b, p.line as int),
                }
            },
            None => SpecDiagnostic {
                message: error.message,
                line: 0,
                column: 0,
                source_line: seq![],
            },
        }
    }

    pub fn from_error(source: &Source, error: &ParseError) -> (d: Diagnostic)
        requires
            error.span matches Some(span) ==> position_fits(source.text(), span.start),
            source.text().len() < usize::MAX,
        ensures
            d@ == Diagnostic::spec_from_error(source.text(), error@),
    {
        let message = error.message.clone();
        match error.span {
            None => Diagnostic { message, line: 0, column: 0, source_line: String::new() },
            Some(span) => {
                let position = source.position(span.start);
                let source_line = Self::line_text(source, position.line);
                Diagnostic {
                    message,
                    line: position.line,
                    column: position.column,
                    source_line,
                }
            },
        }
    }

    /// The text of a line as `str::lines` yields it.
    fn line_text(source: &Source, line: usize) -> (t: String)
        requires
            source.text().len() < usize::MAX,
        ensures
            t@ == lines_entry(source.text(), line as int),
    {
        let ghost b = source.text();
        proof {
            lemma_line_starts(b);
            lemma_str_bytes(source.spec_content());
        }
        match source.line(line) {
            None => String::new(),
            Some(text) => {
                let bytes = text.as_bytes();
                let n = bytes.len();
                let last = line == usize::MAX || source.line(line + 1).is_none();
                if !last && n > 0 && bytes[n - 1] == 13u8 {
                    proof {
                        let (s, e) = line_range(b, line as int).unwrap();
                        lemma_str_bytes(text);
                        assert(text.spec_bytes().subrange(0, n - 1) =~= b.subrange(s, e - 1));
                        assert(line_range(b, line + 1) is Some);
                        lemma_ascii_is_boundary(text.spec_bytes(), n - 1);
                        is_char_boundary_start_end_of_seq(text.spec_bytes());
                    }
                    String::from_str(slice_str(text, 0, n - 1))
                } else {
                    proof {
                        let (s, e) = line_range(b, line as int).unwrap();
                        if last {
                            assert(line >= line_starts_of(b).len());
                        }
                        if !last {
                            assert(line_range(b, line + 1) is Some);
                        }
                        if n > 0 {
                            assert(bytes@[n - 1] == b[e - 1]);
                        }
                    }
                    String::from_str(text)
                }
            },
        }
    }
}

/// A diagnostic for an error with a span carries the error's message and
/// the line and column that `Source::position` gives for the span's start;
/// that line exists, so it is at least 1, and in a text without carriage
/// returns its source line is the text `Source::line` gives for it. Without a
/// span the line is 0.
pub proof fn lemma_diagnostic_position(b: Seq<u8>, error: SpecParseError)
    requires
        b.len() < usize::MAX,
    ensures
        Diagnostic::spec_from_error(b, error).message == error.message,
        error.span is None <==> Diagnostic::spec_from_error(b, error).line == 0,
        error.span matches Some(s) ==> {
            let d = Diagnostic::spec_from_error(b, error);
            &&& d.line == position_of(b, s.start).line
            &&& d.column == position_of(b, s.start).column
            &&& d.line >= 1
            &&& line_range(b, d.line as int) matches Some((st, e))
            &&& ((forall|i: int| 0 <= i < b.len() ==> b[i] != 13) ==> d.source_line == text_of(b, st, e))
        },
{
    if let Some(s) = error.span {
        let m = if s.start <= b.len() { s.start } else { b.len() as usize };
        lemma_position_in_line(b, m);
        lemma_line_starts(b);
        let d = Diagnostic::spec_from_error(b, error);
        assert(position_of(b, s.start).line == position_of(b, m).line);
        assert(d.line == position_of(b, s.start).line);
        let (st, e) = line_range(b, d.line as int).unwrap();
        assert(d.line >= 1);
        if forall|i: int| 0 <= i < b.len() ==> b[i] != 13 {
            let starts = line_starts_of(b);
            if d.line < starts.len() {
                assert(starts[d.line as int] <= b.len());
                assert(e == starts[d.line as int] - 1);
                if e > st {
                    assert(b[e - 1] != 13);
                }
            }
            assert(d.source_line == text_of(b, st, e));
        }
    }
}

} // verus!

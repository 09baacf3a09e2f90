use code_weave::{
    ChunkKind, ChunkPath, Diagnostic, Language, ParseError, ParseErrorKind, Position, Source, Span,
};

#[test]
fn should_create_diagnostic_from_error() {
    let source = Source::new("{\n  \"name\": \"Dhomini\"\n}");

    let error = ParseError::unexpected_token("expected comma", Span::new(4, 10));

    let diagnostic = Diagnostic::from_error(&source, &error);

    assert_eq!(diagnostic.message, "expected comma");

    assert_eq!(diagnostic.line, 2);

    assert_eq!(diagnostic.source_line, "  \"name\": \"Dhomini\"");
}

#[test]
fn should_create_path() {
    let path = ChunkPath::new("users[0].profile");

    assert_eq!(path.as_str(), "users[0].profile");
}

#[test]
fn should_create_path_from_string() {
    let path = ChunkPath::from(String::from("users"));

    assert_eq!(path.as_str(), "users");
}

#[test]
fn should_create_path_from_str() {
    let path = ChunkPath::from("users");

    assert_eq!(path.as_str(), "users");
}

#[test]
fn should_compare_paths() {
    assert_eq!(ChunkPath::new("users"), ChunkPath::new("users"));
}

#[test]
fn should_get_position_from_byte_offset() {
    let source = Source::new("hello\nworld");

    let position = source.position(6);

    assert_eq!(
        position,
        Position {
            byte: 6,
            line: 2,
            column: 1,
        }
    );
}

#[test]
fn should_get_line_content() {
    let source = Source::new("hello\nworld\nrust");

    assert_eq!(source.line(1), Some("hello"));
    assert_eq!(source.line(2), Some("world"));
    assert_eq!(source.line(3), Some("rust"));
    assert_eq!(source.line(4), None);
}

#[test]
fn should_get_content_from_span() {
    let source = Source::new("hello world");

    let content = source.span(Span { start: 0, end: 5 });

    assert_eq!(content, "hello");
}

#[test]
fn should_handle_utf8() {
    let source = Source::new("Olá\nMundo");

    let position = source.position(5);

    assert_eq!(position.line, 2);
    assert_eq!(position.column, 1);
}

#[test]
fn diagnostic_column_counts_from_line_start() {
    let source = Source::new("{\n  \"name\": \"Dhomini\"\n}");
    let error = ParseError::unexpected_token("expected comma", Span::new(4, 10));

    let diagnostic = error.diagnostic(&source);

    assert_eq!(diagnostic.column, 3);
    assert_eq!(diagnostic.line, 2);
    assert_eq!(diagnostic, Diagnostic::from_error(&source, &error));
}

#[test]
fn diagnostic_without_span_has_no_position() {
    let source = Source::new("first\nsecond");
    let error = ParseError::unexpected_end_of_input("expected value");

    let diagnostic = Diagnostic::from_error(&source, &error);

    assert_eq!(error.kind, ParseErrorKind::UnexpectedEndOfInput);
    assert_eq!(error.span, None);
    assert_eq!(diagnostic.message, "expected value");
    assert_eq!(diagnostic.line, 0);
    assert_eq!(diagnostic.column, 0);
    assert_eq!(diagnostic.source_line, "");
}

#[test]
fn diagnostic_line_drops_carriage_return() {
    let source = Source::new("a\r\nbc\r\n");
    let error = ParseError::invalid_syntax("bad");

    assert_eq!(error.kind, ParseErrorKind::InvalidSyntax);

    let error = ParseError::unexpected_token("bad", Span::new(3, 4));
    let diagnostic = Diagnostic::from_error(&source, &error);

    assert_eq!(diagnostic.line, 2);
    assert_eq!(diagnostic.column, 1);
    assert_eq!(diagnostic.source_line, "bc");
}

#[test]
fn position_past_the_end_stays_on_last_line() {
    let source = Source::new("ab\ncd");

    assert_eq!(source.position(5), Position { byte: 5, line: 2, column: 3 });
    assert_eq!(source.position(9), Position { byte: 9, line: 2, column: 7 });
    assert_eq!(source.position(0), Position { byte: 0, line: 1, column: 1 });
}

#[test]
fn line_zero_and_trailing_newline() {
    let source = Source::new("one\ntwo\n");

    assert_eq!(source.line(0), None);
    assert_eq!(source.line(2), Some("two"));
    assert_eq!(source.line(3), Some(""));
    assert_eq!(source.line(4), None);
    assert_eq!(source.content(), "one\ntwo\n");
}

#[test]
fn position_names_the_line_that_holds_it() {
    let text = "alpha\nbeta\n\ngamma";
    let source = Source::new(text);

    for offset in 0..=text.len() {
        let position = source.position(offset);
        let line = source.line(position.line).unwrap();
        let line_start = offset + 1 - position.column;
        assert!(line_start <= offset);
        assert!(offset <= line_start + line.len());
        assert_eq!(&text[line_start..line_start + line.len()], line);
    }
}

#[test]
fn span_len_and_emptiness() {
    let span = Span::new(3, 8);

    assert_eq!(span.len(), 5);
    assert!(!span.is_empty());
    assert!(Span::new(4, 4).is_empty());
    assert_eq!(Span::new(4, 4).len(), 0);
}

#[test]
fn path_emptiness_and_conversion() {
    assert!(ChunkPath::new("").is_empty());
    assert!(!ChunkPath::new("a").is_empty());
    assert_eq!(ChunkPath::from_string(String::from("a.b")).as_str(), "a.b");
    assert_ne!(ChunkPath::new("a"), ChunkPath::new("b"));
}

#[test]
fn language_names() {
    assert_eq!(Language::Json.as_str(), "json");
    assert_eq!(Language::Yaml.as_str(), "yaml");
    assert_eq!(Language::TypeScript.as_str(), "typescript");
    assert_eq!(Language::JavaScript.as_str(), "javascript");
    assert_eq!(Language::Rust.as_str(), "rust");
    assert_eq!(Language::Python.as_str(), "python");
    assert_eq!(Language::Java.as_str(), "java");
}

#[test]
fn error_constructors_keep_message_and_span() {
    let error = ParseError::unexpected_token("oops", Span::new(1, 2));

    assert_eq!(error.kind, ParseErrorKind::UnexpectedToken);
    assert_eq!(error.message, "oops");
    assert_eq!(error.span, Some(Span::new(1, 2)));
    assert_eq!(ChunkKind::File, ChunkKind::File);
}

#[test]
fn lines_rejoin_to_the_text() {
    for text in ["", "a", "a\n", "a\nbb\n\nccc", "\n\n"] {
        let source = Source::new(text);
        let newlines = text.matches('\n').count();
        assert_eq!(source.line(0), None);
        assert_eq!(source.line(newlines + 2), None);
        let lines: Vec<&str> = (1..=newlines + 1).map(|k| source.line(k).unwrap()).collect();
        assert!(lines.iter().all(|l| !l.contains('\n')));
        assert_eq!(lines.join("\n"), text);
    }
}

#[test]
fn diagnostic_agrees_with_position_and_line() {
    let source = Source::new("ab\ncde\nf");
    let error = ParseError::unexpected_token("x", Span::new(5, 6));

    let diagnostic = Diagnostic::from_error(&source, &error);
    let position = source.position(5);

    assert_eq!(diagnostic.line, position.line);
    assert_eq!(diagnostic.column, position.column);
    assert_eq!(Some(diagnostic.source_line.as_str()), source.line(diagnostic.line));
}

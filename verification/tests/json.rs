use code_weave::json::{JsonChunker, JsonFormatter, JsonLexer, JsonSyntaxParser, TokenKind};
use code_weave::{ChunkKind, ChunkPath, Formatter, Language, ParseErrorKind, Source, SyntaxKind};

#[test]
fn should_create_chunks_for_array_objects() {
    let input = r#"{
  "users": [
    {
      "name": "Dhomini"
    },
    {
      "name": "Maria"
    }
  ]
}"#;

    let source = Source::new(input);

    let lexer = JsonLexer;
    let tokens = lexer.tokenize(input);

    let parser = JsonSyntaxParser::new(&tokens, input);

    let tree = parser.parse().unwrap();

    let chunker = JsonChunker;

    let chunks = chunker.chunk(&tree, &source);

    for chunk in &chunks {
        println!("{:?} {:?} {:?}", chunk.kind, chunk.name, chunk.path);
    }
}

#[test]
fn should_create_nested_paths_inside_arrays() {
    let input = r#"{
      "users": [
        {
          "profile": {
            "name": "Dhomini"
          }
        }
      ]
    }"#;

    let source = Source::new(input);

    let lexer = JsonLexer;
    let tokens = lexer.tokenize(input);

    let parser = JsonSyntaxParser::new(&tokens, input);

    let tree = parser.parse().unwrap();

    let chunker = JsonChunker;

    let chunks = chunker.chunk(&tree, &source);

    assert_eq!(chunks.len(), 4);

    assert_eq!(chunks[0].kind, ChunkKind::File);

    assert_eq!(chunks[1].path.as_ref().map(ChunkPath::as_str), Some("users"));

    assert_eq!(chunks[2].path.as_ref().map(ChunkPath::as_str), Some("users[0]"));

    assert_eq!(chunks[2].parent.as_ref().map(ChunkPath::as_str), Some("users"));

    assert_eq!(chunks[3].path.as_ref().map(ChunkPath::as_str), Some("users[0].profile"));

    assert_eq!(chunks[3].parent.as_ref().map(ChunkPath::as_str), Some("users[0]"));
}

#[test]
fn should_tokenize_object() {
    let input = r#"{
    "name": "Dhomini",
    "age": 25
}"#;

    let lexer = JsonLexer;

    let tokens = lexer.tokenize(input);

    assert_eq!(
        tokens.iter().map(|token| &token.kind).collect::<Vec<_>>(),
        vec![
            &TokenKind::LeftBrace,
            &TokenKind::String,
            &TokenKind::Colon,
            &TokenKind::String,
            &TokenKind::Comma,
            &TokenKind::String,
            &TokenKind::Colon,
            &TokenKind::Number,
            &TokenKind::RightBrace,
        ]
    );
}

#[test]
fn should_preserve_spans() {
    let input = r#"{"name":"Dhomini"}"#;

    let lexer = JsonLexer;

    let tokens = lexer.tokenize(input);

    let name = &tokens[1];

    assert_eq!(&input[name.span.start..name.span.end], "\"name\"");
}

#[test]
fn should_implement_formatter() {
    let formatter = JsonFormatter;

    assert_eq!(formatter.language(), Language::Json);
}

#[test]
fn should_parse_json_into_chunks() {
    let input = r#"{
  "database": {
    "host": "localhost",
    "port": 5432
  }
}"#;

    let source = Source::new(input);

    let formatter = JsonFormatter;

    let chunks = formatter.parse(&source).unwrap();

    assert_eq!(chunks.len(), 2);

    assert_eq!(chunks[0].kind, ChunkKind::File);

    assert_eq!(chunks[1].name.as_deref(), Some("database"));

    assert_eq!(chunks[1].path.as_ref().map(ChunkPath::as_str), Some("database"));
}

#[test]
fn should_return_error_with_span() {
    let input = r#"{
      "name": "Dhomini"
      "age": 25
    }"#;

    let lexer = JsonLexer;
    let tokens = lexer.tokenize(input);

    let parser = JsonSyntaxParser::new(&tokens, input);

    let error = parser.parse().unwrap_err();

    assert_eq!(error.kind, ParseErrorKind::UnexpectedToken);

    assert!(error.span.is_some());

    let span = error.span.unwrap();

    assert_eq!(&input[span.start..span.end], "\"age\"");
}

#[test]
fn should_parse_nested_object() {
    let input = r#"{
  "database": {
    "host": "localhost",
    "port": 5432
  }
}"#;

    let lexer = JsonLexer;
    let tokens = lexer.tokenize(input);

    let parser = JsonSyntaxParser::new(&tokens, input);

    let root = parser.parse().unwrap();

    assert_eq!(root.kind, SyntaxKind::Object);
    assert_eq!(root.name, None);

    assert_eq!(root.children.len(), 1);

    let database = &root.children[0];

    assert_eq!(database.kind, SyntaxKind::Object);

    assert_eq!(database.name.as_deref(), Some("database"));

    assert_eq!(database.children.len(), 2);
}

#[test]
fn should_preserve_object_span() {
    let input = r#"{
  "database": {
    "host": "localhost"
  }
}"#;

    let lexer = JsonLexer;
    let tokens = lexer.tokenize(input);

    let parser = JsonSyntaxParser::new(&tokens, input);

    let root = parser.parse().unwrap();

    let database = &root.children[0];

    let content = &input[database.span.start..database.span.end];

    assert_eq!(
        content,
        r#"{
    "host": "localhost"
  }"#
    );
}

fn parse_error(input: &str) -> code_weave::ParseError {
    let tokens = JsonLexer.tokenize(input);
    JsonSyntaxParser::new(&tokens, input).parse().unwrap_err()
}

#[test]
fn missing_comma_names_both_kinds() {
    let error = parse_error("{\"a\": 1 \"b\": 2}");

    assert_eq!(error.kind, ParseErrorKind::UnexpectedToken);
    assert_eq!(error.message, "expected Comma, found String");
}

#[test]
fn end_of_input_is_reported_without_span() {
    let error = parse_error("{\"a\": ");

    assert_eq!(error.kind, ParseErrorKind::UnexpectedEndOfInput);
    assert_eq!(error.message, "expected value, found end of input");
    assert_eq!(error.span, None);

    let error = parse_error("");
    assert_eq!(error.kind, ParseErrorKind::UnexpectedEndOfInput);
}

#[test]
fn rejected_key_is_invalid_syntax() {
    let error = parse_error(r#"{"\q": 1}"#);

    assert_eq!(error.kind, ParseErrorKind::InvalidSyntax);
    assert_eq!(error.message, "invalid object key");
    assert_eq!(error.span, None);
}

#[test]
fn token_after_root_value_is_an_error() {
    let error = parse_error("{} 1");

    assert_eq!(error.kind, ParseErrorKind::UnexpectedToken);
    assert_eq!(error.message, "unexpected token after root value: Number");
}

#[test]
fn value_expected_where_a_colon_stands() {
    let error = parse_error("[:]");

    assert_eq!(error.kind, ParseErrorKind::UnexpectedToken);
    assert_eq!(error.message, "expected value, found Colon");
    assert_eq!(error.span.map(|s| (s.start, s.end)), Some((1, 2)));
}

#[test]
fn escaped_key_is_decoded() {
    let input = r#"{"\u0041b": {"x": 1}}"#;
    let source = Source::new(input);

    let chunks = JsonFormatter.parse(&source).unwrap();

    assert_eq!(chunks.len(), 2);
    assert_eq!(chunks[1].name.as_deref(), Some("Ab"));
    assert_eq!(chunks[1].path.as_ref().map(ChunkPath::as_str), Some("Ab"));
    assert_eq!(chunks[1].content, r#"{"x": 1}"#);
}

#[test]
fn formatter_reports_parse_errors() {
    let source = Source::new("[1 2]");

    let error = JsonFormatter.parse(&source).unwrap_err();

    assert_eq!(error.kind, ParseErrorKind::UnexpectedToken);
    assert_eq!(error.message, "expected Comma, found Number");
}

#[test]
fn array_items_get_decimal_paths() {
    let input = r#"{"xs": [{}, {}, {}, {}, {}, {}, {}, {}, {}, {}, {"deep": []}]}"#;
    let source = Source::new(input);

    let chunks = JsonFormatter.parse(&source).unwrap();

    assert_eq!(chunks.len(), 14);
    assert_eq!(chunks[1].kind, ChunkKind::Array);
    assert_eq!(chunks[1].path.as_ref().map(ChunkPath::as_str), Some("xs"));
    assert_eq!(chunks[12].path.as_ref().map(ChunkPath::as_str), Some("xs[10]"));
    assert_eq!(chunks[12].name.as_deref(), Some("xs[10]"));
    assert_eq!(chunks[12].parent.as_ref().map(ChunkPath::as_str), Some("xs"));
    assert_eq!(chunks[13].kind, ChunkKind::Array);
    assert_eq!(chunks[13].path.as_ref().map(ChunkPath::as_str), Some("xs[10].deep"));
    assert_eq!(chunks[13].parent.as_ref().map(ChunkPath::as_str), Some("xs[10]"));
}

#[test]
fn chunk_lines_and_content_follow_spans() {
    let input = "{\n  \"a\": {\n    \"b\": [\n      1\n    ]\n  }\n}";
    let source = Source::new(input);

    let chunks = JsonFormatter.parse(&source).unwrap();

    assert_eq!(chunks.len(), 3);
    assert_eq!(chunks[0].start_line, 1);
    assert_eq!(chunks[0].end_line, 7);
    assert_eq!(chunks[0].content, input);
    assert_eq!(chunks[0].language, Language::Json);
    assert_eq!(chunks[1].start_line, 2);
    assert_eq!(chunks[1].end_line, 6);
    assert_eq!(chunks[2].path.as_ref().map(ChunkPath::as_str), Some("a.b"));
    assert_eq!(chunks[2].parent.as_ref().map(ChunkPath::as_str), Some("a"));
    assert_eq!(chunks[2].content, "[\n      1\n    ]");
}

#[test]
fn lexer_keeps_literals_and_unknown_bytes() {
    let tokens = JsonLexer.tokenize("[true, false, null, -1.5e3, @]");
    let kinds: Vec<TokenKind> = tokens.iter().map(|t| t.kind).collect();

    assert_eq!(
        kinds,
        vec![
            TokenKind::LeftBracket,
            TokenKind::True,
            TokenKind::Comma,
            TokenKind::False,
            TokenKind::Comma,
            TokenKind::Null,
            TokenKind::Comma,
            TokenKind::Number,
            TokenKind::Comma,
            TokenKind::Unknown,
            TokenKind::RightBracket,
        ]
    );
    assert_eq!((tokens[7].span.start, tokens[7].span.end), (20, 26));
}

#[test]
fn json_token_spans_are_in_order() {
    let input = "{ \"k\" : [ 1 , \"v\\\"w\" ] }";
    let tokens = JsonLexer.tokenize(input);

    for (i, token) in tokens.iter().enumerate() {
        assert!(token.span.start < token.span.end);
        assert!(token.span.end <= input.len());
        if i > 0 {
            assert!(tokens[i - 1].span.end <= token.span.start);
        }
    }
    assert_eq!(&input[tokens[6].span.start..tokens[6].span.end], "\"v\\\"w\"");
}

#[test]
fn every_chunk_path_ends_with_its_name() {
    let input = r#"{"a": {"b": {"c": {}}}, "list": [[{"x": {}}]]}"#;
    let source = Source::new(input);

    let chunks = JsonFormatter.parse(&source).unwrap();

    assert_eq!(chunks[0].kind, ChunkKind::File);
    assert!(chunks[0].path.is_none());
    for chunk in &chunks[1..] {
        let name = chunk.name.as_deref().unwrap();
        let path = chunk.path.as_ref().unwrap().as_str();
        assert!(path.ends_with(name));
        assert!(chunk.kind == ChunkKind::Object || chunk.kind == ChunkKind::Array);
    }
    assert_eq!(chunks[3].path.as_ref().map(ChunkPath::as_str), Some("a.b.c"));
    assert_eq!(chunks[3].parent.as_ref().map(ChunkPath::as_str), Some("b"));
}

#[test]
fn string_cut_after_backslash_runs_past_the_end() {
    let input = "\"ab\\";
    let tokens = JsonLexer.tokenize(input);

    assert_eq!(tokens.len(), 1);
    assert_eq!(tokens[0].kind, TokenKind::String);
    assert_eq!((tokens[0].span.start, tokens[0].span.end), (0, input.len() + 1));

    let input = "{\"a\": \"x\\";
    let tokens = JsonLexer.tokenize(input);
    let error = JsonSyntaxParser::new(&tokens, input).parse().unwrap_err();
    assert_eq!(error.kind, ParseErrorKind::UnexpectedEndOfInput);
    assert_eq!(error.message, "expected Comma, found end of input");
}

#[test]
fn parse_checked_refuses_only_strings_cut_after_backslash() {
    let source = Source::new("{\"a\": \"x\\");
    assert!(JsonFormatter.parse_checked(&source).is_none());

    let source = Source::new("\"ab\\");
    assert!(JsonFormatter.parse_checked(&source).is_none());

    let source = Source::new("{\"a\": {}}");
    let chunks = JsonFormatter.parse_checked(&source).unwrap().unwrap();
    assert_eq!(chunks.len(), 2);
    assert_eq!(chunks[1].path.as_ref().map(ChunkPath::as_str), Some("a"));

    let source = Source::new("[1 2]");
    let error = JsonFormatter.parse_checked(&source).unwrap().unwrap_err();
    assert_eq!(error.message, "expected Comma, found Number");
}

#[test]
fn node_spans_nest_in_order() {
    let input = " {\"a\": [1, {\"b\": null}], \"c\": true} ";
    let tokens = JsonLexer.tokenize(input);
    let root = JsonSyntaxParser::new(&tokens, input).parse().unwrap();

    assert_eq!(root.span.start, tokens[0].span.start);
    assert_eq!(root.span.end, tokens[tokens.len() - 1].span.end);
    check_nested(&root);
    let copy = root.clone();
    assert_eq!(copy, root);
}

fn check_nested(node: &code_weave::SyntaxNode) {
    assert!(node.span.start <= node.span.end);
    for (i, child) in node.children.iter().enumerate() {
        assert!(node.span.start <= child.span.start && child.span.end <= node.span.end);
        if i > 0 {
            assert!(node.children[i - 1].span.end <= child.span.start);
        }
        check_nested(child);
    }
}

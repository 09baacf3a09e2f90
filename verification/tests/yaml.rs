use code_weave::yaml::{YamlChunker, YamlFormatter, YamlLexer, YamlSyntaxParser, YamlTokenKind};
use code_weave::{ChunkKind, ChunkPath, Formatter, Language, Source, SyntaxKind, SyntaxNode};

    fn print_tree(node: &SyntaxNode, depth: usize) {
        println!(
            "{}{:?} {:?} {:?}",
            "  ".repeat(depth),
            node.kind,
            node.name,
            node.span
        );

        for child in &node.children {
            print_tree(child, depth + 1);
        }
    }

    #[test]
    fn should_create_chunks_for_nested_mapping() {
        let input = "\
database:
  host: localhost
  port: 5432
";

        let source = Source::new(input);

        let lexer = YamlLexer;
        let tokens = lexer.tokenize(input);

        let parser = YamlSyntaxParser::new(&tokens, input);
        let tree = parser.parse();

        let chunker = YamlChunker;
        let chunks = chunker.chunk(&tree, &source);

        assert_eq!(chunks.len(), 4);

        assert_eq!(chunks[0].kind, ChunkKind::File);

        assert_eq!(chunks[1].kind, ChunkKind::Object);
        assert_eq!(
            chunks[1].path.as_ref().map(ChunkPath::as_str),
            Some("database")
        );

        assert_eq!(chunks[2].kind, ChunkKind::Property);
        assert_eq!(
            chunks[2].path.as_ref().map(ChunkPath::as_str),
            Some("database.host")
        );
        assert_eq!(
            chunks[2].parent.as_ref().map(ChunkPath::as_str),
            Some("database")
        );

        assert_eq!(chunks[3].kind, ChunkKind::Property);
        assert_eq!(
            chunks[3].path.as_ref().map(ChunkPath::as_str),
            Some("database.port")
        );
        assert_eq!(
            chunks[3].parent.as_ref().map(ChunkPath::as_str),
            Some("database")
        );
    }

    #[test]
    fn should_create_chunks_for_sequence_of_objects() {
        let input = "\
    users:
      - name: Dhomini
        age: 25
      - name: Maria
        age: 30
    ";

        let source = Source::new(input);

        let lexer = YamlLexer;
        let tokens = lexer.tokenize(input);

        let parser = YamlSyntaxParser::new(&tokens, input);
        let tree = parser.parse();

        let chunker = YamlChunker;
        let chunks = chunker.chunk(&tree, &source);

        assert_eq!(chunks.len(), 8);

        assert_eq!(chunks[0].kind, ChunkKind::File);

        assert_eq!(chunks[1].kind, ChunkKind::Array);
        assert_eq!(
            chunks[1].path.as_ref().map(ChunkPath::as_str),
            Some("users")
        );

        assert_eq!(chunks[2].kind, ChunkKind::Object);
        assert_eq!(
            chunks[2].path.as_ref().map(ChunkPath::as_str),
            Some("users[0]")
        );
        assert_eq!(
            chunks[2].parent.as_ref().map(ChunkPath::as_str),
            Some("users")
        );

        assert_eq!(chunks[3].kind, ChunkKind::Property);
        assert_eq!(
            chunks[3].path.as_ref().map(ChunkPath::as_str),
            Some("users[0].name")
        );
        assert_eq!(
            chunks[3].parent.as_ref().map(ChunkPath::as_str),
            Some("users[0]")
        );

        assert_eq!(chunks[4].kind, ChunkKind::Property);
        assert_eq!(
            chunks[4].path.as_ref().map(ChunkPath::as_str),
            Some("users[0].age")
        );
        assert_eq!(
            chunks[4].parent.as_ref().map(ChunkPath::as_str),
            Some("users[0]")
        );

        assert_eq!(chunks[5].kind, ChunkKind::Object);
        assert_eq!(
            chunks[5].path.as_ref().map(ChunkPath::as_str),
            Some("users[1]")
        );
        assert_eq!(
            chunks[5].parent.as_ref().map(ChunkPath::as_str),
            Some("users")
        );

        assert_eq!(chunks[6].kind, ChunkKind::Property);
        assert_eq!(
            chunks[6].path.as_ref().map(ChunkPath::as_str),
            Some("users[1].name")
        );
        assert_eq!(
            chunks[6].parent.as_ref().map(ChunkPath::as_str),
            Some("users[1]")
        );

        assert_eq!(chunks[7].kind, ChunkKind::Property);
        assert_eq!(
            chunks[7].path.as_ref().map(ChunkPath::as_str),
            Some("users[1].age")
        );
        assert_eq!(
            chunks[7].parent.as_ref().map(ChunkPath::as_str),
            Some("users[1]")
        );
    }

    #[test]
    fn should_create_chunks_for_scalar_sequence() {
        let input = "\
    tags:
      - rust
      - typescript
      - postgres
    ";

        let source = Source::new(input);

        let lexer = YamlLexer;
        let tokens = lexer.tokenize(input);

        let parser = YamlSyntaxParser::new(&tokens, input);
        let tree = parser.parse();

        let chunker = YamlChunker;
        let chunks = chunker.chunk(&tree, &source);

        assert_eq!(chunks.len(), 5);

        assert_eq!(chunks[0].kind, ChunkKind::File);

        assert_eq!(chunks[1].kind, ChunkKind::Array);
        assert_eq!(chunks[1].path.as_ref().map(ChunkPath::as_str), Some("tags"));

        assert_eq!(chunks[2].kind, ChunkKind::Property);
        assert_eq!(
            chunks[2].path.as_ref().map(ChunkPath::as_str),
            Some("tags[0]")
        );
        assert_eq!(
            chunks[2].parent.as_ref().map(ChunkPath::as_str),
            Some("tags")
        );

        assert_eq!(chunks[3].kind, ChunkKind::Property);
        assert_eq!(
            chunks[3].path.as_ref().map(ChunkPath::as_str),
            Some("tags[1]")
        );
        assert_eq!(
            chunks[3].parent.as_ref().map(ChunkPath::as_str),
            Some("tags")
        );

        assert_eq!(chunks[4].kind, ChunkKind::Property);
        assert_eq!(
            chunks[4].path.as_ref().map(ChunkPath::as_str),
            Some("tags[2]")
        );
        assert_eq!(
            chunks[4].parent.as_ref().map(ChunkPath::as_str),
            Some("tags")
        );
    }

    #[test]
    fn should_create_chunks_for_nested_sequence() {
        let input = "\
    users:
      - name: Dhomini
        roles:
          - admin
          - developer
      - name: Maria
        roles:
          - user
    ";

        let source = Source::new(input);

        let lexer = YamlLexer;
        let tokens = lexer.tokenize(input);

        let parser = YamlSyntaxParser::new(&tokens, input);
        let tree = parser.parse();

        let chunker = YamlChunker;
        let chunks = chunker.chunk(&tree, &source);

        assert_eq!(chunks.len(), 11);

        assert_eq!(chunks[0].kind, ChunkKind::File);

        assert_eq!(chunks[1].kind, ChunkKind::Array);
        assert_eq!(
            chunks[1].path.as_ref().map(ChunkPath::as_str),
            Some("users")
        );

        assert_eq!(chunks[2].kind, ChunkKind::Object);
        assert_eq!(
            chunks[2].path.as_ref().map(ChunkPath::as_str),
            Some("users[0]")
        );
        assert_eq!(
            chunks[2].parent.as_ref().map(ChunkPath::as_str),
            Some("users")
        );

        assert_eq!(chunks[3].kind, ChunkKind::Property);
        assert_eq!(
            chunks[3].path.as_ref().map(ChunkPath::as_str),
            Some("users[0].name")
        );
        assert_eq!(
            chunks[3].parent.as_ref().map(ChunkPath::as_str),
            Some("users[0]")
        );

        assert_eq!(chunks[4].kind, ChunkKind::Array);
        assert_eq!(
            chunks[4].path.as_ref().map(ChunkPath::as_str),
            Some("users[0].roles")
        );
        assert_eq!(
            chunks[4].parent.as_ref().map(ChunkPath::as_str),
            Some("users[0]")
        );

        assert_eq!(chunks[5].kind, ChunkKind::Property);
        assert_eq!(
            chunks[5].path.as_ref().map(ChunkPath::as_str),
            Some("users[0].roles[0]")
        );
        assert_eq!(
            chunks[5].parent.as_ref().map(ChunkPath::as_str),
            Some("users[0].roles")
        );

        assert_eq!(chunks[6].kind, ChunkKind::Property);
        assert_eq!(
            chunks[6].path.as_ref().map(ChunkPath::as_str),
            Some("users[0].roles[1]")
        );
        assert_eq!(
            chunks[6].parent.as_ref().map(ChunkPath::as_str),
            Some("users[0].roles")
        );

        assert_eq!(chunks[7].kind, ChunkKind::Object);
        assert_eq!(
            chunks[7].path.as_ref().map(ChunkPath::as_str),
            Some("users[1]")
        );
        assert_eq!(
            chunks[7].parent.as_ref().map(ChunkPath::as_str),
            Some("users")
        );

        assert_eq!(chunks[8].kind, ChunkKind::Property);
        assert_eq!(
            chunks[8].path.as_ref().map(ChunkPath::as_str),
            Some("users[1].name")
        );
        assert_eq!(
            chunks[8].parent.as_ref().map(ChunkPath::as_str),
            Some("users[1]")
        );

        assert_eq!(chunks[9].kind, ChunkKind::Array);
        assert_eq!(
            chunks[9].path.as_ref().map(ChunkPath::as_str),
            Some("users[1].roles")
        );
        assert_eq!(
            chunks[9].parent.as_ref().map(ChunkPath::as_str),
            Some("users[1]")
        );

        assert_eq!(chunks[10].kind, ChunkKind::Property);
        assert_eq!(
            chunks[10].path.as_ref().map(ChunkPath::as_str),
            Some("users[1].roles[0]")
        );
        assert_eq!(
            chunks[10].parent.as_ref().map(ChunkPath::as_str),
            Some("users[1].roles")
        );

        assert!(chunks.get(11).is_none());
    }
    #[test]
    fn should_tokenize_indentation() {
        let input = "\
    database:
      host: localhost
      port: 5432
    ";

        let lexer = YamlLexer;
        let tokens = lexer.tokenize(input);

        let kinds: Vec<_> = tokens.iter().map(|token| &token.kind).collect();

        assert!(kinds.contains(&&YamlTokenKind::Indent));
        assert!(kinds.contains(&&YamlTokenKind::Dedent));
    }

    #[test]
    fn lexer_should_preserve_absolute_spans() {
        let input = "\
    database:
      host: localhost
      port: 5432
    ";

        let lexer = YamlLexer;
        let tokens = lexer.tokenize(input);

        let host = tokens
            .iter()
            .find(|token| token.kind == YamlTokenKind::Key)
            .unwrap();

        assert_eq!(&input[host.span.start..host.span.end], "database");

        let keys: Vec<_> = tokens
            .iter()
            .filter(|token| token.kind == YamlTokenKind::Key)
            .collect();

        assert_eq!(&input[keys[1].span.start..keys[1].span.end], "host");
        assert_eq!(&input[keys[2].span.start..keys[2].span.end], "port");
    }

    #[test]
    fn should_tokenize_nested_mapping() {
        let input = "\
    database:
      host: localhost
      connection:
        port: 5432
    ";

        let lexer = YamlLexer;
        let tokens = lexer.tokenize(input);

        let indent_count = tokens
            .iter()
            .filter(|token| token.kind == YamlTokenKind::Indent)
            .count();

        let dedent_count = tokens
            .iter()
            .filter(|token| token.kind == YamlTokenKind::Dedent)
            .count();

        assert_eq!(indent_count, 2);
        assert_eq!(dedent_count, 2);
    }

    #[test]
    fn should_tokenize_sequence_mapping() {
        let input = "\
    users:
      - name: Dhomini
      - name: Maria
    ";

        let lexer = YamlLexer;
        let tokens = lexer.tokenize(input);

        let kinds: Vec<_> = tokens.iter().map(|token| &token.kind).collect();

        assert_eq!(
            kinds
                .iter()
                .filter(|kind| ***kind == YamlTokenKind::Dash)
                .count(),
            2
        );

        assert_eq!(
            kinds
                .iter()
                .filter(|kind| ***kind == YamlTokenKind::Key)
                .count(),
            3
        );
    }

    #[test]
    fn should_debug_sequence_of_objects() {
        let input = "\
    users:
      - name: Dhomini
        age: 25
      - name: Maria
        age: 30
    ";

        let lexer = YamlLexer;
        let tokens = lexer.tokenize(input);

        for token in tokens {
            println!(
                "{:?} => {:?}",
                token.kind,
                &input[token.span.start..token.span.end]
            );
        }
    }
    #[test]
    fn should_parse_simple_mapping() {
        let input = "\
name: Dhomini
age: 25
";

        let lexer = YamlLexer;
        let tokens = lexer.tokenize(input);

        let parser = YamlSyntaxParser::new(&tokens, input);

        let root = parser.parse();

        assert_eq!(root.kind, SyntaxKind::Object);
        assert_eq!(root.children.len(), 2);

        assert_eq!(root.children[0].name.as_deref(), Some("name"));
        assert_eq!(root.children[0].kind, SyntaxKind::String);

        assert_eq!(root.children[1].name.as_deref(), Some("age"));
        assert_eq!(root.children[1].kind, SyntaxKind::String);
    }

    #[test]
    fn should_parse_nested_mapping() {
        let input = "\
database:
  host: localhost
  port: 5432
";

        let lexer = YamlLexer;
        let tokens = lexer.tokenize(input);

        let parser = YamlSyntaxParser::new(&tokens, input);

        let root = parser.parse();

        assert_eq!(root.children.len(), 1);

        let database = &root.children[0];

        assert_eq!(database.kind, SyntaxKind::Object);
        assert_eq!(database.name.as_deref(), Some("database"));
        assert_eq!(database.children.len(), 2);

        assert_eq!(database.children[0].name.as_deref(), Some("host"));
        assert_eq!(database.children[0].kind, SyntaxKind::String);

        assert_eq!(database.children[1].name.as_deref(), Some("port"));
        assert_eq!(database.children[1].kind, SyntaxKind::String);
    }

    #[test]
    fn should_parse_deeply_nested_mapping() {
        let input = "\
database:
  connection:
    credentials:
      username: admin
      password: secret
";

        let lexer = YamlLexer;
        let tokens = lexer.tokenize(input);

        let parser = YamlSyntaxParser::new(&tokens, input);

        let root = parser.parse();

        let database = &root.children[0];
        let connection = &database.children[0];
        let credentials = &connection.children[0];

        assert_eq!(credentials.name.as_deref(), Some("credentials"));
        assert_eq!(credentials.children.len(), 2);

        assert_eq!(credentials.children[0].name.as_deref(), Some("username"));

        assert_eq!(credentials.children[1].name.as_deref(), Some("password"));
    }

    #[test]
    fn should_parse_scalar_sequence() {
        let input = "\
users:
  - Dhomini
  - Maria
";

        let lexer = YamlLexer;
        let tokens = lexer.tokenize(input);

        let parser = YamlSyntaxParser::new(&tokens, input);

        let root = parser.parse();

        assert_eq!(root.children.len(), 1);

        let users = &root.children[0];

        assert_eq!(users.kind, SyntaxKind::Array);
        assert_eq!(users.name.as_deref(), Some("users"));
        assert_eq!(users.children.len(), 2);

        assert_eq!(users.children[0].kind, SyntaxKind::String);
        assert_eq!(users.children[1].kind, SyntaxKind::String);
    }

    #[test]
    fn should_parse_sequence_of_objects() {
        let input = "\
    users:
      - name: Dhomini
        age: 25
      - name: Maria
        age: 30
    ";

        let lexer = YamlLexer;
        let tokens = lexer.tokenize(input);

        let parser = YamlSyntaxParser::new(&tokens, input);

        let root = parser.parse();

        assert_eq!(root.children.len(), 1);

        let users = &root.children[0];

        assert_eq!(users.kind, SyntaxKind::Array);
        assert_eq!(users.name.as_deref(), Some("users"));
        assert_eq!(users.children.len(), 2);

        let first = &users.children[0];

        assert_eq!(first.kind, SyntaxKind::Object);
        assert_eq!(first.children.len(), 2);

        assert_eq!(first.children[0].name.as_deref(), Some("name"));
        assert_eq!(first.children[1].name.as_deref(), Some("age"));

        let second = &users.children[1];

        assert_eq!(second.kind, SyntaxKind::Object);
        assert_eq!(second.children.len(), 2);

        assert_eq!(second.children[0].name.as_deref(), Some("name"));
        assert_eq!(second.children[1].name.as_deref(), Some("age"));
    }

    #[test]
    fn should_debug_nested_sequence() {
        let input = "\
    users:
      - name: Dhomini
        roles:
          - admin
          - developer
      - name: Maria
        roles:
          - user
    ";

        let lexer = YamlLexer;
        let tokens = lexer.tokenize(input);

        let parser = YamlSyntaxParser::new(&tokens, input);
        let root = parser.parse();

        print_tree(&root, 0);
    }

fn yaml_chunks(input: &str) -> Vec<code_weave::CodeChunk> {
    let source = Source::new(input);
    YamlFormatter.parse(&source).unwrap()
}

fn path_of(chunk: &code_weave::CodeChunk) -> Option<&str> {
    chunk.path.as_ref().map(ChunkPath::as_str)
}

#[test]
fn formatter_gives_readme_paths() {
    let input = "users:\n  - name: Dhomini\n    roles:\n      - admin\n      - developer\n";

    let chunks = yaml_chunks(input);
    let paths: Vec<Option<&str>> = chunks.iter().map(path_of).collect();

    assert_eq!(
        paths,
        vec![
            None,
            Some("users"),
            Some("users[0]"),
            Some("users[0].name"),
            Some("users[0].roles"),
            Some("users[0].roles[0]"),
            Some("users[0].roles[1]"),
        ]
    );
    assert_eq!(YamlFormatter.language(), Language::Yaml);
    assert!(chunks.iter().all(|c| c.language == Language::Yaml));
}

#[test]
fn chunk_paths_extend_parent_paths() {
    let input = "a:\n  b:\n    - x\n    - y: 1\n      z: 2\nc: 3\n";

    let chunks = yaml_chunks(input);

    assert_eq!(chunks[0].kind, ChunkKind::File);
    assert_eq!(chunks[0].content, input);
    for (i, chunk) in chunks.iter().enumerate().skip(1) {
        let name = chunk.name.as_deref().unwrap();
        let path = path_of(chunk).unwrap();
        let parent = chunk.parent.as_ref().map(ChunkPath::as_str);
        let dotted = match parent {
            Some(p) => format!("{}.{}", p, name),
            None => name.to_string(),
        };
        let joined = format!("{}{}", parent.unwrap_or(""), name);
        assert!(path == dotted || path == joined);
        if let Some(p) = parent {
            assert!(chunks[..i].iter().any(|earlier| path_of(earlier) == Some(p)));
        }
    }
    assert_eq!(path_of(&chunks[3]), Some("a.b[0]"));
    assert_eq!(chunks[3].name.as_deref(), Some("[0]"));
    assert_eq!(chunks[3].kind, ChunkKind::Property);
    assert_eq!(path_of(&chunks[chunks.len() - 1]), Some("c"));
}

#[test]
fn chunk_lines_follow_spans() {
    let input = "db:\n  host: h\n  port: 1\n";

    let chunks = yaml_chunks(input);

    assert_eq!(chunks.len(), 4);
    assert_eq!(chunks[1].start_line, 1);
    assert_eq!(chunks[1].end_line, 3);
    assert_eq!(chunks[2].content, "host: h");
    assert_eq!(chunks[2].start_line, 2);
    assert_eq!(chunks[3].content, "port: 1");
    assert_eq!(chunks[3].end_line, 3);
}

#[test]
fn key_without_value_is_null() {
    let input = "empty:\nname: x\n";
    let tokens = YamlLexer.tokenize(input);

    let root = YamlSyntaxParser::new(&tokens, input).parse();

    assert_eq!(root.kind, SyntaxKind::Object);
    assert_eq!(root.span.end, input.len());
    assert_eq!(root.children.len(), 2);
    assert_eq!(root.children[0].kind, SyntaxKind::Null);
    assert_eq!(root.children[0].name.as_deref(), Some("empty"));
    assert_eq!(root.children[1].kind, SyntaxKind::String);
}

#[test]
fn comments_and_blank_lines_are_tokens_or_nothing() {
    let input = "# note\n\nkey: value\n";
    let tokens = YamlLexer.tokenize(input);
    let kinds: Vec<YamlTokenKind> = tokens.iter().map(|t| t.kind).collect();

    assert_eq!(
        kinds,
        vec![
            YamlTokenKind::Comment,
            YamlTokenKind::Newline,
            YamlTokenKind::Newline,
            YamlTokenKind::Key,
            YamlTokenKind::Colon,
            YamlTokenKind::Scalar,
            YamlTokenKind::Newline,
        ]
    );
    assert_eq!(&input[tokens[5].span.start..tokens[5].span.end], "value");
}

#[test]
fn dedent_closes_every_open_level_at_end() {
    let input = "a:\n  b:\n    c: 1";
    let tokens = YamlLexer.tokenize(input);
    let dedents: Vec<_> = tokens.iter().filter(|t| t.kind == YamlTokenKind::Dedent).collect();

    assert_eq!(dedents.len(), 2);
    assert!(dedents.iter().all(|t| t.span.start == input.len() && t.span.end == input.len()));
}

#[test]
fn indents_and_dedents_balance() {
    let input = "a:\n  b:\n    c: 1\n  d: 2\ne:\n  - f\n";
    let tokens = YamlLexer.tokenize(input);

    let mut depth: i64 = 0;
    for token in &tokens {
        match token.kind {
            YamlTokenKind::Indent => depth += 1,
            YamlTokenKind::Dedent => {
                depth -= 1;
                assert_eq!(token.span.start, token.span.end);
            }
            _ => {}
        }
        assert!(depth >= 0);
    }
    assert_eq!(depth, 0);
}

#[test]
fn parsed_tree_names_start_their_spans() {
    let input = "name: x\nlist:\n  - a\n  - k: v\n";
    let tokens = YamlLexer.tokenize(input);
    let root = YamlSyntaxParser::new(&tokens, input).parse();

    assert_eq!(root.name, None);
    assert_eq!((root.span.start, root.span.end), (0, input.len()));
    check_shape(&root, input);
}

fn check_shape(node: &SyntaxNode, input: &str) {
    if let Some(name) = &node.name {
        assert!(input[node.span.start..].starts_with(name.as_str()));
    }
    for child in &node.children {
        match node.kind {
            SyntaxKind::Object => assert!(child.name.is_some()),
            SyntaxKind::Array => assert!(child.name.is_none()),
            _ => panic!("a leaf with children"),
        }
        check_shape(child, input);
    }
}

#[test]
fn parse_checked_formats_plain_texts() {
    let source = Source::new("db:\n  host: h\n");
    let chunks = YamlFormatter.parse_checked(&source).unwrap().unwrap();

    assert_eq!(chunks.len(), 3);
    assert_eq!(path_of(&chunks[2]), Some("db.host"));
}

#[test]
fn shifted_value_span_off_a_character_is_refused() {
    let input = "- a\u{3000}:éé\n";
    let tokens = YamlLexer.tokenize(input);
    let scalar = tokens.iter().find(|t| t.kind == YamlTokenKind::Scalar).unwrap();

    assert!(!input.is_char_boundary(scalar.span.end));
    let root = YamlSyntaxParser::new(&tokens, input).parse();
    assert_eq!(root.children.len(), 1);
    assert!(!input.is_char_boundary(root.children[0].span.end));
    assert!(YamlFormatter.parse_checked(&Source::new(input)).is_none());
}

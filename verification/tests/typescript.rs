use code_weave::typescript::{TypeScriptLexer, TypeScriptSyntaxParser, TypeScriptTokenKind};
use code_weave::SyntaxKind;

    #[test]
    fn should_tokenize_declarations() {
        let input = "\
const name = \"Dhomini\";
let age = 25;
var active = true;
";

        let lexer = TypeScriptLexer;
        let tokens = lexer.tokenize(input);

        let kinds: Vec<_> = tokens.iter().map(|token| &token.kind).collect();

        assert_eq!(
            kinds,
            vec![
                &TypeScriptTokenKind::Const,
                &TypeScriptTokenKind::Identifier,
                &TypeScriptTokenKind::Equals,
                &TypeScriptTokenKind::String,
                &TypeScriptTokenKind::Semicolon,
                &TypeScriptTokenKind::Newline,
                &TypeScriptTokenKind::Let,
                &TypeScriptTokenKind::Identifier,
                &TypeScriptTokenKind::Equals,
                &TypeScriptTokenKind::Number,
                &TypeScriptTokenKind::Semicolon,
                &TypeScriptTokenKind::Newline,
                &TypeScriptTokenKind::Var,
                &TypeScriptTokenKind::Identifier,
                &TypeScriptTokenKind::Equals,
                &TypeScriptTokenKind::Boolean,
                &TypeScriptTokenKind::Semicolon,
                &TypeScriptTokenKind::Newline,
            ]
        );
    }

    #[test]
    fn should_tokenize_declaration_keywords() {
        let input = "\
import foo from \"foo\";
export function test() {}
class User {}
interface Person {}
type UserId = string;
enum Status {}
";

        let lexer = TypeScriptLexer;
        let tokens = lexer.tokenize(input);

        let kinds: Vec<_> = tokens.iter().map(|token| &token.kind).collect();

        assert!(kinds.contains(&&TypeScriptTokenKind::Import));
        assert!(kinds.contains(&&TypeScriptTokenKind::Export));
        assert!(kinds.contains(&&TypeScriptTokenKind::Function));
        assert!(kinds.contains(&&TypeScriptTokenKind::Class));
        assert!(kinds.contains(&&TypeScriptTokenKind::Interface));
        assert!(kinds.contains(&&TypeScriptTokenKind::Type));
        assert!(kinds.contains(&&TypeScriptTokenKind::Enum));
    }

    #[test]
    fn should_preserve_absolute_spans() {
        let input = "\
const name = \"Dhomini\";
";

        let lexer = TypeScriptLexer;
        let tokens = lexer.tokenize(input);

        assert_eq!(&input[tokens[0].span.start..tokens[0].span.end], "const");

        assert_eq!(&input[tokens[1].span.start..tokens[1].span.end], "name");

        assert_eq!(
            &input[tokens[3].span.start..tokens[3].span.end],
            "\"Dhomini\""
        );
    }

    #[test]
    fn should_tokenize_comments_and_arrow_functions() {
        let input = "\
    // comment
    const getName = (user: User) => user.name;

    /* block comment */
    ";

        let lexer = TypeScriptLexer;
        let tokens = lexer.tokenize(input);

        let kinds: Vec<_> = tokens.iter().map(|token| &token.kind).collect();

        assert_eq!(
            kinds,
            vec![
                &TypeScriptTokenKind::LineComment,
                &TypeScriptTokenKind::Newline,
                &TypeScriptTokenKind::Const,
                &TypeScriptTokenKind::Identifier,
                &TypeScriptTokenKind::Equals,
                &TypeScriptTokenKind::OpenParen,
                &TypeScriptTokenKind::Identifier,
                &TypeScriptTokenKind::Colon,
                &TypeScriptTokenKind::Identifier,
                &TypeScriptTokenKind::CloseParen,
                &TypeScriptTokenKind::Arrow,
                &TypeScriptTokenKind::Identifier,
                &TypeScriptTokenKind::Dot,
                &TypeScriptTokenKind::Identifier,
                &TypeScriptTokenKind::Semicolon,
                &TypeScriptTokenKind::Newline,
                &TypeScriptTokenKind::Newline,
                &TypeScriptTokenKind::BlockComment,
                &TypeScriptTokenKind::Newline,
            ]
        );
    }

    #[test]
    fn should_preserve_comment_spans() {
        let input = "// hello\n";

        let lexer = TypeScriptLexer;
        let tokens = lexer.tokenize(input);

        assert_eq!(&input[tokens[0].span.start..tokens[0].span.end], "// hello");
    }
    #[test]
    fn should_parse_variable_declarations() {
        let input = "\
const name = \"Dhomini\";
let age = 25;
var active = true;
";

        let lexer = TypeScriptLexer;
        let tokens = lexer.tokenize(input);

        let parser = TypeScriptSyntaxParser::new(&tokens, input);

        for token in &tokens {
            println!(
                "{:?} => {:?}",
                token.kind,
                &input[token.span.start..token.span.end]
            );
        }

        let root = parser.parse();

        assert_eq!(root.kind, SyntaxKind::Root);
        assert_eq!(root.children.len(), 3);

        assert_eq!(root.children[0].kind, SyntaxKind::Property);
        assert_eq!(root.children[0].name.as_deref(), Some("name"));
        assert_eq!(root.children[0].children[0].kind, SyntaxKind::String);

        assert_eq!(root.children[1].kind, SyntaxKind::Property);
        assert_eq!(root.children[1].name.as_deref(), Some("age"));
        assert_eq!(root.children[1].children[0].kind, SyntaxKind::Number);

        assert_eq!(root.children[2].kind, SyntaxKind::Property);
        assert_eq!(root.children[2].name.as_deref(), Some("active"));
        assert_eq!(root.children[2].children[0].kind, SyntaxKind::Boolean);
    }

    #[test]
    fn should_parse_object_literal() {
        let input = "\
    const user = {
        name: \"Dhomini\",
        age: 25,
        active: true,
    };
    ";

        let lexer = TypeScriptLexer;
        let tokens = lexer.tokenize(input);

        let parser = TypeScriptSyntaxParser::new(&tokens, input);
        let root = parser.parse();

        assert_eq!(root.children.len(), 1);

        let user = &root.children[0];

        assert_eq!(user.kind, SyntaxKind::Property);
        assert_eq!(user.name.as_deref(), Some("user"));

        let object = &user.children[0];

        assert_eq!(object.kind, SyntaxKind::Object);
        assert_eq!(object.children.len(), 3);

        assert_eq!(object.children[0].name.as_deref(), Some("name"));
        assert_eq!(object.children[0].children[0].kind, SyntaxKind::String);

        assert_eq!(object.children[1].name.as_deref(), Some("age"));
        assert_eq!(object.children[1].children[0].kind, SyntaxKind::Number);

        assert_eq!(object.children[2].name.as_deref(), Some("active"));
        assert_eq!(object.children[2].children[0].kind, SyntaxKind::Boolean);
    }

    #[test]
    fn should_parse_nested_object_and_array() {
        let input = "\
    const config = {
        name: \"Code Weave\",
        ports: [8000, 8001, 8002],
        database: {
            host: \"localhost\",
            port: 5432,
        },
    };
    ";

        let lexer = TypeScriptLexer;
        let tokens = lexer.tokenize(input);

        let parser = TypeScriptSyntaxParser::new(&tokens, input);
        let root = parser.parse();

        assert_eq!(root.children.len(), 1);

        let config = &root.children[0];

        assert_eq!(config.kind, SyntaxKind::Property);
        assert_eq!(config.name.as_deref(), Some("config"));

        let object = &config.children[0];

        assert_eq!(object.kind, SyntaxKind::Object);
        assert_eq!(object.children.len(), 3);

        assert_eq!(object.children[0].name.as_deref(), Some("name"));
        assert_eq!(object.children[0].children[0].kind, SyntaxKind::String);

        let ports = &object.children[1];

        assert_eq!(ports.name.as_deref(), Some("ports"));
        assert_eq!(ports.children[0].kind, SyntaxKind::Array);
        assert_eq!(ports.children[0].children.len(), 3);

        assert_eq!(ports.children[0].children[0].kind, SyntaxKind::Number);
        assert_eq!(ports.children[0].children[1].kind, SyntaxKind::Number);
        assert_eq!(ports.children[0].children[2].kind, SyntaxKind::Number);

        let database = &object.children[2];

        assert_eq!(database.name.as_deref(), Some("database"));
        assert_eq!(database.children[0].kind, SyntaxKind::Object);
        assert_eq!(database.children[0].children.len(), 2);

        assert_eq!(
            database.children[0].children[0].name.as_deref(),
            Some("host")
        );

        assert_eq!(
            database.children[0].children[1].name.as_deref(),
            Some("port")
        );
    }

    #[test]
    fn should_parse_array_of_objects() {
        let input = "\
    const users = [
        {
            name: \"Dhomini\",
            age: 25,
        },
        {
            name: \"Maria\",
            age: 30,
        },
    ];
    ";

        let lexer = TypeScriptLexer;
        let tokens = lexer.tokenize(input);

        let parser = TypeScriptSyntaxParser::new(&tokens, input);
        let root = parser.parse();

        assert_eq!(root.children.len(), 1);

        let users = &root.children[0];

        assert_eq!(users.kind, SyntaxKind::Property);
        assert_eq!(users.name.as_deref(), Some("users"));

        let array = &users.children[0];

        assert_eq!(array.kind, SyntaxKind::Array);
        assert_eq!(array.children.len(), 2);

        let first_user = &array.children[0];

        assert_eq!(first_user.kind, SyntaxKind::Object);
        assert_eq!(first_user.children.len(), 2);

        assert_eq!(first_user.children[0].name.as_deref(), Some("name"));
        assert_eq!(first_user.children[0].children[0].kind, SyntaxKind::String);

        assert_eq!(first_user.children[1].name.as_deref(), Some("age"));
        assert_eq!(first_user.children[1].children[0].kind, SyntaxKind::Number);

        let second_user = &array.children[1];

        assert_eq!(second_user.kind, SyntaxKind::Object);
        assert_eq!(second_user.children.len(), 2);

        assert_eq!(second_user.children[0].name.as_deref(), Some("name"));
        assert_eq!(second_user.children[1].name.as_deref(), Some("age"));
    }

    #[test]
    fn should_parse_function_declaration() {
        let input = "\
    function greet(name: string, age: number) {
    }
    ";

        let lexer = TypeScriptLexer;
        let tokens = lexer.tokenize(input);

        let parser = TypeScriptSyntaxParser::new(&tokens, input);

        let root = parser.parse();

        assert_eq!(root.kind, SyntaxKind::Root);
        assert_eq!(root.children.len(), 1);

        let function = &root.children[0];

        assert_eq!(function.kind, SyntaxKind::Function);
        assert_eq!(function.name.as_deref(), Some("greet"));
    }

    #[test]
    fn should_parse_function_parameters() {
        let input = "\
    function greet(name: string, age: number) {
    }
    ";

        let lexer = TypeScriptLexer;
        let tokens = lexer.tokenize(input);

        let parser = TypeScriptSyntaxParser::new(&tokens, input);

        let root = parser.parse();

        let function = &root.children[0];

        assert_eq!(function.kind, SyntaxKind::Function);
        assert_eq!(function.name.as_deref(), Some("greet"));

        assert_eq!(function.children.len(), 3);

        assert_eq!(function.children[0].kind, SyntaxKind::Property);
        assert_eq!(function.children[0].name.as_deref(), Some("name"));

        assert_eq!(function.children[1].kind, SyntaxKind::Property);
        assert_eq!(function.children[1].name.as_deref(), Some("age"));
    }

    #[test]
    fn should_parse_function_body() {
        let input = "\
    function greet(name: string) {
        const message = \"Hello\";
        let count = 1;
    }
    ";

        let lexer = TypeScriptLexer;
        let tokens = lexer.tokenize(input);

        let parser = TypeScriptSyntaxParser::new(&tokens, input);
        let root = parser.parse();

        let function = &root.children[0];
        let block = function
            .children
            .iter()
            .find(|node| node.kind == SyntaxKind::Block)
            .unwrap();

        assert_eq!(block.children.len(), 2);

        assert_eq!(block.children[0].kind, SyntaxKind::Property);
        assert_eq!(block.children[0].name.as_deref(), Some("message"));
        assert_eq!(block.children[0].children[0].kind, SyntaxKind::String);

        assert_eq!(block.children[1].kind, SyntaxKind::Property);
        assert_eq!(block.children[1].name.as_deref(), Some("count"));
        assert_eq!(block.children[1].children[0].kind, SyntaxKind::Number);
    }

    #[test]
    fn should_parse_function_call() {
        let input = "\
    function greet(name: string) {
        console.log(name);
    }
    ";

        let lexer = TypeScriptLexer;
        let tokens = lexer.tokenize(input);

        let parser = TypeScriptSyntaxParser::new(&tokens, input);
        let root = parser.parse();

        let function = &root.children[0];
        let block = function
            .children
            .iter()
            .find(|node| node.kind == SyntaxKind::Block)
            .unwrap();

        assert_eq!(block.children.len(), 1);

        let call = &block.children[0];

        assert_eq!(call.kind, SyntaxKind::Call);
        assert_eq!(call.name.as_deref(), Some("console.log"));
    }

    #[test]
    fn should_parse_function_call_arguments() {
        let input = "\
    function greet(name: string) {
        console.log(name);
    }
    ";

        let lexer = TypeScriptLexer;
        let tokens = lexer.tokenize(input);

        let parser = TypeScriptSyntaxParser::new(&tokens, input);
        let root = parser.parse();

        let function = &root.children[0];

        let block = function
            .children
            .iter()
            .find(|node| node.kind == SyntaxKind::Block)
            .unwrap();

        let call = &block.children[0];

        assert_eq!(call.kind, SyntaxKind::Call);
        assert_eq!(call.name.as_deref(), Some("console.log"));

        assert_eq!(call.children.len(), 1);
        assert_eq!(call.children[0].kind, SyntaxKind::Identifier);
        assert_eq!(call.children[0].name.as_deref(), Some("name"));
    }

fn parse(input: &str) -> code_weave::SyntaxNode {
    let tokens = TypeScriptLexer.tokenize(input);
    TypeScriptSyntaxParser::new(&tokens, input).parse()
}

#[test]
fn declaration_without_semicolon_ends_at_value() {
    let input = "let x = 42\nconst y = [1, 2];";
    let root = parse(input);

    assert_eq!(root.kind, SyntaxKind::Root);
    assert_eq!((root.span.start, root.span.end), (0, input.len()));
    assert_eq!(root.children.len(), 2);
    let x = &root.children[0];
    assert_eq!(&input[x.span.start..x.span.end], "x = 42");
    let y = &root.children[1];
    assert_eq!(&input[y.span.start..y.span.end], "y = [1, 2];");
    assert_eq!(y.children[0].kind, SyntaxKind::Array);
    assert_eq!(y.children[0].children.len(), 2);
}

#[test]
fn function_with_return_type_and_calls() {
    let input = "function f(a: number, b): string {\n  a.b.c(1, \"s\", x);\n  go();\n}\n";
    let root = parse(input);

    assert_eq!(root.children.len(), 1);
    let function = &root.children[0];
    assert_eq!(function.kind, SyntaxKind::Function);
    assert_eq!(function.name.as_deref(), Some("f"));
    assert_eq!(&input[function.span.start..function.span.end], &input[0..input.len() - 1]);
    assert_eq!(function.children.len(), 3);
    assert_eq!(function.children[1].name.as_deref(), Some("b"));
    let block = &function.children[2];
    assert_eq!(block.kind, SyntaxKind::Block);
    assert_eq!(block.children.len(), 2);
    let call = &block.children[0];
    assert_eq!(call.kind, SyntaxKind::Call);
    assert_eq!(call.name.as_deref(), Some("a.b.c"));
    assert_eq!(call.children.len(), 3);
    assert_eq!(call.children[1].kind, SyntaxKind::String);
    assert_eq!(call.children[2].name.as_deref(), Some("x"));
    assert_eq!(&input[call.span.start..call.span.end], "a.b.c(1, \"s\", x)");
    assert_eq!(block.children[1].name.as_deref(), Some("go"));
    assert_eq!(block.children[1].children.len(), 0);
}

#[test]
fn unknown_tokens_are_skipped() {
    let input = "import x from \"y\";\nconst a = 1;\n=> ;\nvar b = true;";
    let root = parse(input);

    assert_eq!(root.children.len(), 2);
    assert_eq!(root.children[0].name.as_deref(), Some("a"));
    assert_eq!(root.children[1].name.as_deref(), Some("b"));
    assert_eq!(root.children[1].children[0].kind, SyntaxKind::Boolean);
}

#[test]
fn failed_declaration_resumes_where_it_stopped() {
    let input = "const = 5;\nlet ok = \"yes\";";
    let root = parse(input);

    assert_eq!(root.children.len(), 1);
    assert_eq!(root.children[0].name.as_deref(), Some("ok"));
}

#[test]
fn object_values_and_identifier_references() {
    let input = "const o = {\n  k: other,\n  n: { deep: 1 }\n};";
    let root = parse(input);

    let object = &root.children[0].children[0];
    assert_eq!(object.kind, SyntaxKind::Object);
    assert_eq!(object.children.len(), 2);
    assert_eq!(object.children[0].children[0].kind, SyntaxKind::Identifier);
    assert_eq!(object.children[0].children[0].name.as_deref(), Some("other"));
    let inner = &object.children[1];
    assert_eq!(&input[inner.span.start..inner.span.end], "n: { deep: 1 }");
    assert_eq!(inner.children[0].children[0].name.as_deref(), Some("deep"));
}

#[test]
fn typescript_token_spans_are_in_order() {
    let input = "const s = 'a b'; // done\n/* x */ f(1)=>2";
    let tokens = TypeScriptLexer.tokenize(input);

    for (i, token) in tokens.iter().enumerate() {
        assert!(token.span.start < token.span.end);
        assert!(token.span.end <= input.len());
        if i > 0 {
            assert!(tokens[i - 1].span.end <= token.span.start);
        }
    }
    assert_eq!(tokens[3].kind, TypeScriptTokenKind::String);
    assert_eq!(&input[tokens[3].span.start..tokens[3].span.end], "'a b'");
    assert_eq!(tokens[5].kind, TypeScriptTokenKind::LineComment);
    assert_eq!(tokens[12].kind, TypeScriptTokenKind::Arrow);
}

# code_weave

Turns source files into structured code chunks: a lexer splits the text
into tokens, a syntax parser builds a tree from them, and a chunker cuts the
tree into chunks that keep their kind, name, parent path, path, line range
and source text. JSON and YAML go through the whole pipeline; TypeScript has
a lexer and a parser.

Every function of the library is verified with Verus against a
specification written over byte sequences, token sequences and syntax trees.

## Layout

- `src/source.rs`, `src/span.rs`, `src/text.rs`, `src/whitespace.rs`: source
  texts, byte ranges, line/column positions and the byte scans the lexers
  share.
- `src/syntax.rs`, `src/chunk.rs`, `src/path.rs`, `src/language.rs`: syntax
  trees, chunks and chunk paths.
- `src/chunking.rs`: how a chunk is measured against its source and how paths
  are spelled (`parent.name`, `parent[i]`).
- `src/error.rs`, `src/diagnostic.rs`: parse errors and the diagnostics made
  from them.
- `src/formatter.rs`: the interface a format implements.
- `src/json/`, `src/yaml/`, `src/typescript/`: one directory per format.
  Decoding JSON string escapes in object keys is left to `serde_json`.
- `tests/`: tests per format and for the shared types.

## Laws proved

- A position names the line that holds it (`source::lemma_position_in_line`);
  a text has one line more than it has newlines, and its lines rejoin to it
  (`source::lemma_lines_cover_text`); a diagnostic's line, column and source
  line agree with them (`diagnostic::lemma_diagnostic_position`).
- JSON and TypeScript tokens lie in the text in order
  (`json::lexer::lemma_json_tokens_in_order`,
  `typescript::lexer::lemma_ts_tokens_in_order`).
- YAML indents and dedents balance (`yaml::lexer::lemma_yaml_levels_balance`).
- A parsed JSON tree has the JSON shape and nested, ordered spans, the root
  spanning all tokens (`json::syntax::lemma_json_parse_shape`,
  `json::syntax::lemma_json_parse_spans`).
- A parsed YAML tree spans the text, has the YAML shape, and each name begins
  its node's text (`yaml::syntax::lemma_yaml_parse_shape`); the YAML parser
  never panics on the tokens of a text (`yaml::syntax::lemma_yaml_parse_total`).
- YAML chunk paths extend their parents' paths, exactly as `parent.name` or
  `parent[i]` where no key starts with `[`, and parents come first
  (`yaml::chunker::lemma_yaml_chunk_paths`).
- Every JSON chunk path ends with the chunk's name
  (`json::chunker::lemma_json_chunk_paths`).
- Every UTF-8 JSON text is formatted without panicking unless it ends inside a
  string right after a backslash (`json::lemma_json_formatter_total`);
  `JsonFormatter::parse_checked` and `YamlFormatter::parse_checked` test a
  source and format it only where that cannot panic.
- The JSON, YAML and TypeScript parsers always move forward
  (`json::syntax::lemma_json_progress`, `yaml::syntax::lemma_yaml_progress`,
  `typescript::syntax::lemma_ts_progress`).

use neco_editor::grammar_check::grammar_source_ok;
use neco_editor::syntax::{
    language_for_extension, scope_to_token_kind, spans_for_ops, GrammarLoadError, GrammarSet,
    SyntaxHighlighter, TokenKind, TokenSpan,
};
use syntect::parsing::{ClearAmount, Scope, ScopeStack, ScopeStackOp};

#[test]
fn scope_to_token_kind_covers_supported_variants_and_edges() {
    let cases = [
        ("keyword.control.rust", TokenKind::Keyword),
        ("storage.type.function.rust", TokenKind::Keyword),
        ("entity.name.function.rust", TokenKind::Function),
        ("support.function.builtin.python", TokenKind::Function),
        ("entity.name.type.struct.rust", TokenKind::Type),
        ("entity.name.class.typescript", TokenKind::Type),
        ("entity.name.struct.rust", TokenKind::Type),
        ("entity.name.enum.rust", TokenKind::Type),
        ("support.type.primitive.ts", TokenKind::Type),
        ("support.class.python", TokenKind::Type),
        ("entity.name.tag.html", TokenKind::Tag),
        ("entity.other.attribute-name.html", TokenKind::Attribute),
        ("string.quoted.double", TokenKind::String),
        ("constant.character.escape.rust", TokenKind::Escape),
        ("constant.numeric.decimal", TokenKind::Number),
        ("constant.language.boolean", TokenKind::Constant),
        ("comment.line.double-slash", TokenKind::Comment),
        ("variable.parameter.function", TokenKind::Variable),
        ("punctuation.section.block.begin", TokenKind::Punctuation),
        ("", TokenKind::Plain),
        ("meta.embedded.unknown", TokenKind::Plain),
    ];

    for (scope, expected) in cases {
        assert_eq!(scope_to_token_kind(scope), expected, "scope={scope}");
    }
}

#[test]
fn scope_to_token_kind_prefers_operator_before_keyword() {
    assert_eq!(
        scope_to_token_kind("keyword.operator.assignment"),
        TokenKind::Operator
    );
}

#[test]
fn grammar_load_error_formats_and_exposes_sources() {
    let io_error = GrammarLoadError::Io(std::io::Error::other("disk"));
    assert_eq!(io_error.message(), "I/O error: disk");
    assert_eq!(
        io_error
            .source_message()
            .expect("I/O variant must expose its source"),
        "disk"
    );

    let parse_error = GrammarLoadError::Parse("bad syntax".to_string());
    assert_eq!(parse_error.message(), "parse error: bad syntax");
    assert!(parse_error.source_message().is_none());
}

#[test]
fn scope_prefix_must_match_from_the_start() {
    assert_eq!(scope_to_token_kind("meta.keyword"), TokenKind::Plain);
    assert_eq!(scope_to_token_kind("keywor"), TokenKind::Plain);
    assert_eq!(scope_to_token_kind("constant.numeric"), TokenKind::Number);
    assert_eq!(scope_to_token_kind("constant.character"), TokenKind::Constant);
}

#[test]
fn grammar_load_error_from_io_error() {
    let err: GrammarLoadError = std::io::Error::other("gone").into();
    assert!(matches!(err, GrammarLoadError::Io(_)));
}

#[test]
fn token_span_clone_keeps_range_and_kind() {
    let span = TokenSpan { range: 2..5, kind: TokenKind::String };
    assert_eq!(span.clone(), span);
}

fn has_token(spans: &[TokenSpan], kind: TokenKind) -> bool {
    spans.iter().any(|span| span.kind == kind)
}

fn token_text<'a>(line: &'a str, spans: &[TokenSpan], kind: TokenKind) -> Vec<&'a str> {
    spans
        .iter()
        .filter(|span| span.kind == kind)
        .map(|span| &line[span.range.clone()])
        .collect()
}

#[test]
fn syntax_highlighter_tokenizes_rust_key_tokens() {
    let grammar_set = GrammarSet::default_set();
    let mut highlighter =
        SyntaxHighlighter::new(&grammar_set, "Rust").expect("Rust syntax must exist");

    let line1 = "fn main() {\n";
    let line2 = "    let x = 42;\n";
    let line3 = "}\n";
    let spans1 = highlighter.tokenize_line(line1);
    let spans2 = highlighter.tokenize_line(line2);
    let spans3 = highlighter.tokenize_line(line3);

    assert!(has_token(&spans1, TokenKind::Keyword));
    assert!(token_text(line1, &spans1, TokenKind::Keyword).contains(&"fn"));
    assert!(has_token(&spans1, TokenKind::Function));
    assert!(token_text(line1, &spans1, TokenKind::Function).contains(&"main"));
    assert!(has_token(&spans1, TokenKind::Punctuation));
    assert!(has_token(&spans2, TokenKind::Keyword));
    assert!(token_text(line2, &spans2, TokenKind::Keyword).contains(&"let"));
    assert!(has_token(&spans2, TokenKind::Number));
    assert!(token_text(line2, &spans2, TokenKind::Number).contains(&"42"));
    assert!(has_token(&spans2, TokenKind::Operator));
    assert!(token_text(line2, &spans2, TokenKind::Operator).contains(&"="));
    assert!(has_token(&spans3, TokenKind::Punctuation));
}

#[test]
fn syntax_highlighter_tokenizes_typescript_key_tokens() {
    let grammar_set = GrammarSet::default_set();
    let mut highlighter = SyntaxHighlighter::new(&grammar_set, "TypeScript")
        .expect("TypeScript syntax must exist");

    let line1 = "const foo = hello;\n";
    let line2 = "console.log(foo);\n";
    let line3 = "let n = 1;\n";
    let spans1 = highlighter.tokenize_line(line1);
    let spans2 = highlighter.tokenize_line(line2);
    let spans3 = highlighter.tokenize_line(line3);

    assert!(has_token(&spans1, TokenKind::Keyword));
    assert!(token_text(line1, &spans1, TokenKind::Keyword).contains(&"const"));
    assert!(has_token(&spans1, TokenKind::Operator));
    assert!(token_text(line1, &spans1, TokenKind::Operator).contains(&"="));
    assert!(has_token(&spans2, TokenKind::Function));
    assert!(token_text(line2, &spans2, TokenKind::Function).contains(&"log"));
    assert!(has_token(&spans3, TokenKind::Keyword));
    assert!(token_text(line3, &spans3, TokenKind::Keyword).contains(&"let"));
    assert!(has_token(&spans3, TokenKind::Number));
    assert!(token_text(line3, &spans3, TokenKind::Number).contains(&"1"));
}

#[test]
fn syntax_highlighter_tokenizes_python_key_tokens() {
    let grammar_set = GrammarSet::default_set();
    let mut highlighter =
        SyntaxHighlighter::new(&grammar_set, "Python").expect("Python syntax must exist");

    let line1 = "def greet(name):\n";
    let line2 = "    print(f\"Hello {name}\")\n";
    let line3 = "    return 7\n";
    let spans1 = highlighter.tokenize_line(line1);
    let spans2 = highlighter.tokenize_line(line2);
    let spans3 = highlighter.tokenize_line(line3);

    assert!(has_token(&spans1, TokenKind::Keyword));
    assert!(token_text(line1, &spans1, TokenKind::Keyword).contains(&"def"));
    assert!(has_token(&spans1, TokenKind::Variable));
    assert!(token_text(line1, &spans1, TokenKind::Variable).contains(&"name"));
    assert!(has_token(&spans1, TokenKind::Punctuation));
    assert!(has_token(&spans2, TokenKind::Function));
    assert!(token_text(line2, &spans2, TokenKind::Function).contains(&"print"));
    assert!(has_token(&spans2, TokenKind::String));
    assert!(token_text(line2, &spans2, TokenKind::String)
        .iter()
        .any(|text| text.contains("Hello")));
    assert!(has_token(&spans3, TokenKind::Keyword));
    assert!(token_text(line3, &spans3, TokenKind::Keyword).contains(&"return"));
    assert!(has_token(&spans3, TokenKind::Number));
    assert!(token_text(line3, &spans3, TokenKind::Number).contains(&"7"));
}

#[test]
fn syntax_highlighter_tokenizes_json_key_tokens() {
    let grammar_set = GrammarSet::default_set();
    let mut highlighter =
        SyntaxHighlighter::new(&grammar_set, "JSON").expect("JSON syntax must exist");

    let line1 = "{\"key\": \"value\",\n";
    let line2 = " \"num\": 42\n";
    let line3 = "}\n";
    let spans1 = highlighter.tokenize_line(line1);
    let spans2 = highlighter.tokenize_line(line2);
    let spans3 = highlighter.tokenize_line(line3);

    assert!(has_token(&spans1, TokenKind::String));
    assert!(token_text(line1, &spans1, TokenKind::String)
        .iter()
        .any(|text| text.contains("key")));
    assert!(token_text(line1, &spans1, TokenKind::String)
        .iter()
        .any(|text| text.contains("value")));
    assert!(has_token(&spans1, TokenKind::Punctuation));
    assert!(token_text(line1, &spans1, TokenKind::Punctuation)
        .iter()
        .any(|text| text.contains('{')));
    assert!(has_token(&spans2, TokenKind::String));
    assert!(token_text(line2, &spans2, TokenKind::String)
        .iter()
        .any(|text| text.contains("num")));
    assert!(has_token(&spans2, TokenKind::Number));
    assert!(token_text(line2, &spans2, TokenKind::Number).contains(&"42"));
    assert!(has_token(&spans3, TokenKind::Punctuation));
    assert!(token_text(line3, &spans3, TokenKind::Punctuation)
        .iter()
        .any(|text| text.contains('}')));
}

#[test]
fn syntax_highlighter_reset_restores_initial_state() {
    let grammar_set = GrammarSet::default_set();
    let mut highlighter =
        SyntaxHighlighter::new(&grammar_set, "Rust").expect("Rust syntax must exist");

    let prior_line = "fn main() {\n";
    let target_line = "    let x = 42;\n";

    let _ = highlighter.tokenize_line(prior_line);
    let before_reset = highlighter.tokenize_line(target_line);
    highlighter.reset();
    let _ = highlighter.tokenize_line(prior_line);
    let after_reset = highlighter.tokenize_line(target_line);

    assert_eq!(before_reset, after_reset);
}

#[test]
fn default_set_detects_bundled_syntect_languages() {
    let grammar_set = GrammarSet::default_set();
    assert_eq!(grammar_set.detect_language("rs"), Some("Rust"));
    assert_eq!(grammar_set.detect_language("ts"), Some("TypeScript"));
    assert_eq!(grammar_set.detect_language("json"), Some("JSON"));
    assert_eq!(grammar_set.detect_language("py"), Some("Python"));
    assert_eq!(grammar_set.detect_language("kdl"), Some("KDL"));
    assert_eq!(grammar_set.detect_language("does-not-exist"), None);
    assert!(!grammar_set.languages().is_empty());
}

#[test]
fn highlighter_resolves_typescript_and_case_insensitive_names() {
    let grammar_set = GrammarSet::default_set();
    assert!(SyntaxHighlighter::new(&grammar_set, "typescript").is_some());
    assert!(SyntaxHighlighter::new(&grammar_set, "rust").is_some());
    assert!(SyntaxHighlighter::new(&grammar_set, "no-such-language").is_none());
}

#[test]
fn load_grammar_source_adds_a_language() {
    let mut grammar_set = GrammarSet::default_set();
    let source = r#"name: MiniSyntax
file_extensions: [mini]
scope: source.mini
contexts:
  main:
    - match: '\b(todo)\b'
      scope: keyword.control.mini
"#;
    assert!(grammar_set.load_grammar_source(source, Some("mini")).is_ok());
    assert_eq!(grammar_set.detect_language("mini"), Some("MiniSyntax"));

    let mut highlighter = SyntaxHighlighter::new(&grammar_set, "MiniSyntax").unwrap();
    let line = "a todo b\n";
    let spans = highlighter.tokenize_line(line);
    assert_eq!(token_text(line, &spans, TokenKind::Keyword), vec!["todo"]);
}

#[test]
fn load_grammar_source_reports_parse_errors_and_keeps_set() {
    let mut grammar_set = GrammarSet::default_set();
    let before = grammar_set.languages().len();
    let result = grammar_set.load_grammar_source("not: valid: yaml: [", Some("bad"));
    assert!(matches!(result, Err(GrammarLoadError::Parse(_))));
    assert_eq!(grammar_set.languages().len(), before);
}

#[test]
fn tokenize_line_spans_tile_the_line() {
    let grammar_set = GrammarSet::default_set();
    let mut highlighter = SyntaxHighlighter::new(&grammar_set, "Rust").unwrap();
    let line = "let answer = 42; // done\n";
    let spans = highlighter.tokenize_line(line);
    assert_eq!(spans.first().unwrap().range.start, 0);
    assert_eq!(spans.last().unwrap().range.end, line.len());
    for pair in spans.windows(2) {
        assert_eq!(pair[0].range.end, pair[1].range.start);
        assert!(pair[0].kind != pair[1].kind);
    }
}

#[test]
fn language_for_extension_prefers_aliases() {
    assert_eq!(language_for_extension("ts", true, false, Some("JavaScript")), Some("TypeScript"));
    assert_eq!(language_for_extension("tsx", false, false, Some("JavaScript")), Some("TypeScript"));
    assert_eq!(language_for_extension("kdl", false, true, None), Some("KDL"));
    assert_eq!(language_for_extension("kdl", false, false, Some("KDL2")), Some("KDL"));
    assert_eq!(language_for_extension("rs", true, true, Some("Rust")), Some("Rust"));
    assert_eq!(language_for_extension("x", false, false, None), None);
}

#[test]
fn syntax_highlighter_accepts_lowercase_language_aliases() {
    let grammar_set = GrammarSet::default_set();

    assert!(
        SyntaxHighlighter::new(&grammar_set, "typescript").is_some(),
        "lowercase 'typescript' must resolve via alias"
    );
    assert!(
        SyntaxHighlighter::new(&grammar_set, "kdl").is_some(),
        "lowercase 'kdl' must resolve via alias"
    );
    assert!(
        SyntaxHighlighter::new(&grammar_set, "rust").is_some(),
        "lowercase 'rust' must resolve via case-insensitive name match"
    );
}

#[test]
fn syntax_highlighter_tokenizes_kdl_key_tokens() {
    let grammar_set = GrammarSet::default_set();
    let mut highlighter =
        SyntaxHighlighter::new(&grammar_set, "KDL").expect("KDL syntax must exist");

    let line1 = "node \"arg\" key=42\n";
    let line2 = "// comment\n";
    let line3 = "{\n";
    let line4 = "}\n";
    let spans1 = highlighter.tokenize_line(line1);
    let spans2 = highlighter.tokenize_line(line2);
    let spans3 = highlighter.tokenize_line(line3);
    let spans4 = highlighter.tokenize_line(line4);

    assert!(has_token(&spans1, TokenKind::String));
    assert!(token_text(line1, &spans1, TokenKind::String)
        .iter()
        .any(|text| text.contains("arg")));
    assert!(has_token(&spans2, TokenKind::Comment));
    assert!(token_text(line2, &spans2, TokenKind::Comment)
        .iter()
        .any(|text| text.contains("comment")));
    assert!(has_token(&spans3, TokenKind::Punctuation));
    assert!(has_token(&spans4, TokenKind::Punctuation));
}

#[test]
fn spans_for_ops_follow_the_scopes_in_force() {
    let keyword = Scope::new("keyword.control.rust").unwrap();
    let string = Scope::new("string.quoted.double").unwrap();
    let ops = vec![
        (0, ScopeStackOp::Push(keyword)),
        (2, ScopeStackOp::Pop(1)),
        (3, ScopeStackOp::Push(string)),
        (3, ScopeStackOp::Noop),
        (6, ScopeStackOp::Pop(1)),
    ];
    let mut stack = ScopeStack::new();
    let spans = spans_for_ops(&ops, &mut stack, 8).unwrap();
    assert_eq!(
        spans,
        vec![
            TokenSpan { range: 0..2, kind: TokenKind::Keyword },
            TokenSpan { range: 2..3, kind: TokenKind::Plain },
            TokenSpan { range: 3..6, kind: TokenKind::String },
            TokenSpan { range: 6..8, kind: TokenKind::Plain },
        ]
    );
    assert!(stack.as_slice().is_empty());
}

#[test]
fn spans_for_ops_merge_touching_spans_and_clamp_offsets() {
    let comment = Scope::new("comment.line").unwrap();
    let other = Scope::new("comment.block").unwrap();
    let ops = vec![
        (0, ScopeStackOp::Push(comment)),
        (2, ScopeStackOp::Push(other)),
        (10, ScopeStackOp::Pop(2)),
    ];
    let mut stack = ScopeStack::new();
    let spans = spans_for_ops(&ops, &mut stack, 4).unwrap();
    assert_eq!(spans, vec![TokenSpan { range: 0..4, kind: TokenKind::Comment }]);
}

#[test]
fn spans_for_ops_clear_and_restore() {
    let keyword = Scope::new("keyword").unwrap();
    let ops = vec![
        (0, ScopeStackOp::Push(keyword)),
        (1, ScopeStackOp::Clear(ClearAmount::All)),
        (2, ScopeStackOp::Restore),
    ];
    let mut stack = ScopeStack::new();
    let spans = spans_for_ops(&ops, &mut stack, 3).unwrap();
    assert_eq!(
        spans,
        vec![
            TokenSpan { range: 0..1, kind: TokenKind::Keyword },
            TokenSpan { range: 1..2, kind: TokenKind::Plain },
            TokenSpan { range: 2..3, kind: TokenKind::Keyword },
        ]
    );
}

#[test]
fn spans_for_ops_fail_on_restore_without_clear() {
    let ops = vec![(0, ScopeStackOp::Restore)];
    let mut stack = ScopeStack::new();
    assert!(spans_for_ops(&ops, &mut stack, 3).is_none());
}

const MINI_HEAD: &str = "name: Mini\nscope: source.mini\nfile_extensions: [mini]\n";

#[test]
fn grammar_check_accepts_plain_and_nested_variable_grammars() {
    assert!(grammar_source_ok(neco_editor::syntax::KDL_GRAMMAR));
    let nested = format!(
        "{MINI_HEAD}variables:\n  a: 'x'\n  b: '{{{{a}}}}y'\n  c: '{{{{b}}}}{{{{a}}}}'\ncontexts:\n  main:\n    - match: '{{{{c}}}}'\n      scope: keyword.mini\n"
    );
    assert!(grammar_source_ok(&nested));
    let mut set = GrammarSet::default_set();
    assert!(set.load_grammar_source(&nested, None).is_ok());
    assert_eq!(set.detect_language("mini"), Some("Mini"));
    assert!(grammar_source_ok("not: [valid"));
}

#[test]
fn grammar_check_refuses_texts_the_loader_cannot_survive() {
    let bad_escape = format!(
        "{MINI_HEAD}contexts:\n  main:\n    - match: 'a'\n      escape: 5\n"
    );
    let empty_push = format!(
        "{MINI_HEAD}contexts:\n  main:\n    - match: 'a'\n      push: [[]]\n"
    );
    let cycle = format!(
        "{MINI_HEAD}variables:\n  a: '{{{{b}}}}'\n  b: '{{{{a}}}}'\ncontexts:\n  main:\n    - match: '{{{{a}}}}'\n"
    );
    for text in [&bad_escape, &empty_push, &cycle] {
        assert!(!grammar_source_ok(text));
        let mut set = GrammarSet::default_set();
        let before = set.languages().len();
        let err = set.load_grammar_source(text, None).unwrap_err();
        assert!(matches!(err, GrammarLoadError::Parse(_)));
        assert_eq!(set.languages().len(), before);
    }
}

use engram::parser::chunking::{chunk_symbol, count_nws, estimate_tokens};
use engram::parser::markdown::parse_markdown;
use engram::parser::treesitter::{compute_scope_hierarchy, CodeParser, ParseError, Symbol};
use engram::parser::{detect_language, EdgeKind, SymbolKind};

// ── Chunking ─────────────────────────────────────────────────────────────

#[test]
fn test_small_function_not_chunked() {
    let parser = CodeParser::new();
    let source = r#"fn small() { let x = 1; }"#;
    let result = parser.parse_source(source, "rust", "test.rs").unwrap();

    for sym in &result.symbols {
        let chunks = chunk_symbol(sym);
        assert!(chunks.is_empty(), "small function should not be chunked");
    }
}

#[test]
fn test_large_function_chunked() {
    let mut body_lines = Vec::new();
    for i in 0..60 {
        body_lines.push(format!("    let var_{} = compute_something({});", i, i));
    }
    let source = format!("fn big_function() {{\n{}\n}}", body_lines.join("\n"));

    let parser = CodeParser::new();
    let result = parser.parse_source(&source, "rust", "test.rs").unwrap();

    let sym = &result.symbols[0];
    let chunks = chunk_symbol(sym);
    assert!(
        chunks.len() >= 2,
        "large function should produce at least 2 chunks, got {}",
        chunks.len()
    );

    for chunk in &chunks {
        assert_eq!(chunk.scope_chain, sym.scope_chain);
        assert!(!chunk.body_hash.is_empty());
        assert!(chunk.token_count > 0);
        assert!(chunk.nws_count > 0);
    }
}

#[test]
fn chunks_rejoin_to_body() {
    let mut body_lines = Vec::new();
    for i in 0..80 {
        body_lines.push(format!("    let value_{} = compute_something({});", i, i));
    }
    let source = format!("fn big_function() {{\n{}\n}}", body_lines.join("\n"));
    let result = CodeParser::new().parse_source(&source, "rust", "test.rs").unwrap();
    let sym = &result.symbols[0];
    let chunks = chunk_symbol(sym);
    assert!(chunks.len() >= 2);
    let joined: Vec<&str> = chunks.iter().map(|c| c.content.as_str()).collect();
    assert_eq!(joined.join("\n"), sym.body.lines().collect::<Vec<_>>().join("\n"));
    for (i, c) in chunks.iter().enumerate() {
        assert_eq!(c.chunk_index, i);
        assert_eq!(c.nws_count, count_nws(&c.content));
        if i + 1 < chunks.len() {
            assert!(c.nws_count >= 500);
        }
    }
}

#[test]
fn test_chunk_line_ranges_are_contiguous() {
    let mut body_lines = Vec::new();
    for i in 0..80 {
        body_lines.push(format!("    let v{} = {};", i, i));
    }
    let source = format!("fn big() {{\n{}\n}}", body_lines.join("\n"));

    let parser = CodeParser::new();
    let result = parser.parse_source(&source, "rust", "test.rs").unwrap();
    let chunks = chunk_symbol(&result.symbols[0]);

    if chunks.len() >= 2 {
        for i in 1..chunks.len() {
            assert!(
                chunks[i].line_start >= chunks[i - 1].line_start,
                "chunk line ranges should be monotonically increasing"
            );
        }
    }
}

#[test]
fn test_nws_count_accuracy() {
    let s = "  hello  world  \n\t  foo  ";
    assert_eq!(count_nws(s), 13);
}

#[test]
fn test_token_estimate() {
    assert_eq!(estimate_tokens(100), 25);
    assert_eq!(estimate_tokens(0), 0);
}

#[test]
fn token_estimate_rounds_up() {
    assert_eq!(estimate_tokens(1), 1);
    assert_eq!(estimate_tokens(5), 2);
    assert_eq!(estimate_tokens(8), 2);
}

#[test]
fn chunks_cover_the_body_in_order() {
    let mut body_lines = Vec::new();
    for i in 0..80 {
        body_lines.push(format!("    let v{} = {};", i, i));
    }
    let source = format!("fn big() {{\n{}\n}}", body_lines.join("\n"));
    let result = CodeParser::new().parse_source(&source, "rust", "test.rs").unwrap();
    let sym = &result.symbols[0];
    let chunks = chunk_symbol(sym);
    assert!(chunks.len() >= 2);
    assert_eq!(chunks[0].line_start, sym.line_start);
    for i in 1..chunks.len() {
        assert_eq!(chunks[i].line_start, chunks[i - 1].line_end + 1);
        assert_eq!(chunks[i].chunk_index, i);
    }
    assert_eq!(chunks[chunks.len() - 1].line_end, sym.line_end);
}

// ── Markdown ─────────────────────────────────────────────────────────────

#[test]
fn test_parse_markdown_headings() {
    let content = "# Title\n\nSome intro text.\n\n## Section One\n\nContent here.\n\n## Section Two\n\nMore content.\n";
    let result = parse_markdown(content, "README.md");

    let names: Vec<&str> = result.symbols.iter().map(|s| s.name.as_str()).collect();
    assert!(names.contains(&"Title"), "should find Title: {:?}", names);
    assert!(names.contains(&"Section One"), "should find Section One: {:?}", names);
    assert!(names.contains(&"Section Two"), "should find Section Two: {:?}", names);
}

#[test]
fn test_parse_markdown_no_headings() {
    let content = "Just some plain text without any headings.\nAnother line.\n";
    let result = parse_markdown(content, "notes.md");

    assert_eq!(result.symbols.len(), 1);
    assert_eq!(result.symbols[0].name, "notes");
}

#[test]
fn test_parse_markdown_empty() {
    let result = parse_markdown("", "empty.md");
    assert!(result.symbols.is_empty());
}

#[test]
fn test_parse_markdown_nested_headings() {
    let content = "# Top\n\n## Sub\n\n### Deep\n\nContent.\n";
    let result = parse_markdown(content, "doc.md");

    assert_eq!(result.symbols.len(), 3);
}

#[test]
fn test_doc_symbol_has_searchable_content() {
    let content = "# API Reference\n\nThe authentication endpoint accepts JWT tokens.\nUse POST /api/auth with Bearer header.\n";
    let result = parse_markdown(content, "api.md");

    let sym = &result.symbols[0];
    assert!(
        sym.docstring.as_ref().unwrap().contains("JWT tokens"),
        "docstring should contain section content for FTS indexing"
    );
    assert_eq!(sym.language, "markdown");
}

#[test]
fn markdown_sections_run_to_the_next_heading() {
    let content = "# A\ntext\n## B\nmore\n";
    let result = parse_markdown(content, "x.md");
    assert_eq!(result.symbols.len(), 2);
    assert_eq!(result.symbols[0].line_start, 1);
    assert_eq!(result.symbols[0].line_end, 2);
    assert_eq!(result.symbols[1].line_start, 3);
    assert_eq!(result.symbols[1].line_end, 4);
    assert_eq!(result.symbols[0].signature, "# A");
    assert!(result.edges.is_empty());
}

// ── Code ─────────────────────────────────────────────────────────────────

#[test]
fn test_parse_rust_function() {
    let parser = CodeParser::new();
    let source = r#"
/// Validates the JWT token
fn validate_token(token: &str) -> bool {
    token.len() > 0
}
"#;
    let result = parser.parse_source(source, "rust", "test.rs").expect("parse failed");

    assert_eq!(result.symbols.len(), 1);
    let sym = &result.symbols[0];
    assert_eq!(sym.name, "validate_token");
    assert!(matches!(sym.kind, SymbolKind::Function));
    assert_eq!(sym.language, "rust");
    assert!(sym.docstring.as_deref() == Some("Validates the JWT token"));
}

#[test]
fn test_parse_rust_struct_and_impl() {
    let parser = CodeParser::new();
    let source = r#"
struct AuthService {
    secret: String,
}

impl AuthService {
    fn validate(&self, token: &str) -> bool {
        token.len() > 0
    }
}
"#;
    let result = parser.parse_source(source, "rust", "auth.rs").expect("parse failed");

    let struct_sym = result.symbols.iter().find(|s| s.name == "AuthService");
    assert!(struct_sym.is_some());
    assert!(matches!(struct_sym.unwrap().kind, SymbolKind::Struct));

    let method_sym = result.symbols.iter().find(|s| s.name == "validate");
    assert!(method_sym.is_some());
}

#[test]
fn test_parse_python_class() {
    let parser = CodeParser::new();
    let source = r#"
class AuthService:
    """Handles authentication"""

    def validate_token(self, token: str) -> bool:
        """Check if token is valid"""
        return len(token) > 0
"#;
    let result = parser.parse_source(source, "python", "auth.py").expect("parse failed");

    let class = result.symbols.iter().find(|s| s.name == "AuthService");
    assert!(class.is_some());
    assert!(matches!(class.unwrap().kind, SymbolKind::Class));

    let method = result.symbols.iter().find(|s| s.name == "validate_token");
    assert!(method.is_some());
}

#[test]
fn test_scope_chain() {
    let parser = CodeParser::new();
    let source = r#"
class AuthService:
    def validate_token(self, token):
        return True
"#;
    let result = parser.parse_source(source, "python", "auth.py").expect("parse failed");

    let method = result
        .symbols
        .iter()
        .find(|s| s.name == "validate_token")
        .expect("method not found");

    assert_eq!(method.scope_chain, vec!["AuthService", "validate_token"]);
    assert!(method.parent_id.is_some());
}

#[test]
fn test_call_edges() {
    let parser = CodeParser::new();
    let source = r#"
fn helper() -> bool {
    true
}

fn main_func() {
    let result = helper();
}
"#;
    let result = parser.parse_source(source, "rust", "test.rs").expect("parse failed");

    assert!(
        result
            .edges
            .iter()
            .any(|e| { e.kind.as_str() == "CALLS" && e.confidence_percent == 100 }),
        "should find a CALLS edge"
    );
}

#[test]
fn test_canonical_id_stability() {
    let parser = CodeParser::new();
    let source = r#"fn greet() { println!("hello"); }"#;

    let r1 = parser.parse_source(source, "rust", "a.rs").expect("parse");
    let r2 = parser.parse_source(source, "rust", "b.rs").expect("parse");

    assert_ne!(r1.symbols[0].id, r2.symbols[0].id);
    assert_eq!(r1.symbols[0].canonical_id, r2.symbols[0].canonical_id);
}

#[test]
fn python_docstring_is_unquoted() {
    let source = "def f():\n    \"\"\"Does things.\"\"\"\n    return 1\n";
    let result = CodeParser::new().parse_source(source, "python", "m.py").unwrap();
    let f = result.symbols.iter().find(|s| s.name == "f").unwrap();
    assert_eq!(f.docstring.as_deref(), Some("Does things."));
    assert_eq!(f.line_start, 1);
    assert_eq!(f.line_end, 3);
}

#[test]
fn rust_doc_lines_join_in_source_order() {
    let source = "// plain\n/// first\n/// second\nfn f() {}\n";
    let result = CodeParser::new().parse_source(source, "rust", "a.rs").unwrap();
    assert_eq!(result.symbols[0].docstring.as_deref(), Some("first\nsecond"));
}

#[test]
fn go_comments_form_the_docstring() {
    let source = "package main\n\n// Add adds.\n// Twice.\nfunc Add(a int) int { return a }\n";
    let result = CodeParser::new().parse_source(source, "go", "a.go").unwrap();
    let add = result.symbols.iter().find(|s| s.name == "Add").unwrap();
    assert_eq!(add.docstring.as_deref(), Some("Add adds.\nTwice."));
}

#[test]
fn jsdoc_is_stripped_of_stars() {
    let source = "/**\n * Sums.\n * Fast.\n */\nfunction sum(a, b) { return a + b; }\n";
    let result = CodeParser::new().parse_source(source, "javascript", "a.js").unwrap();
    let sum = result.symbols.iter().find(|s| s.name == "sum").unwrap();
    assert_eq!(sum.docstring.as_deref(), Some("Sums.\nFast."));
}

#[test]
fn signature_stops_before_the_body() {
    let source = "fn add(a: i32, b: i32) -> i32 {\n    a + b\n}\n";
    let result = CodeParser::new().parse_source(source, "rust", "a.rs").unwrap();
    assert_eq!(result.symbols[0].signature, "fn add(a: i32, b: i32) -> i32");
}

#[test]
fn repeated_calls_give_one_edge() {
    let source = "fn leaf() {}\nfn top() { leaf(); leaf(); }\n";
    let result = CodeParser::new().parse_source(source, "rust", "a.rs").unwrap();
    let leaf = result.symbols.iter().find(|s| s.name == "leaf").unwrap();
    let top = result.symbols.iter().find(|s| s.name == "top").unwrap();
    let calls: Vec<_> = result
        .edges
        .iter()
        .filter(|e| e.kind == EdgeKind::Calls && e.from_id == top.id && e.to_id == leaf.id)
        .collect();
    assert_eq!(calls.len(), 1);
    assert_eq!(calls[0].line, Some(2));
    assert_eq!(calls[0].file, "a.rs");
}

#[test]
fn python_base_class_gives_inherits_edge() {
    let source = "class Base:\n    pass\n\nclass Child(Base):\n    pass\n";
    let result = CodeParser::new().parse_source(source, "python", "m.py").unwrap();
    let base = result.symbols.iter().find(|s| s.name == "Base").unwrap();
    let child = result.symbols.iter().find(|s| s.name == "Child").unwrap();
    assert!(result
        .edges
        .iter()
        .any(|e| e.kind == EdgeKind::Inherits && e.from_id == child.id && e.to_id == base.id));
}

#[test]
fn rust_trait_impl_gives_implements_edge() {
    let source = "trait Speak { fn speak(&self); }\nstruct Dog;\nimpl Speak for Dog { fn speak(&self) {} }\n";
    let result = CodeParser::new().parse_source(source, "rust", "a.rs").unwrap();
    let dog = result.symbols.iter().find(|s| s.name == "Dog").unwrap();
    let speak = result.symbols.iter().find(|s| s.name == "Speak").unwrap();
    assert!(result
        .edges
        .iter()
        .any(|e| e.kind == EdgeKind::Implements && e.from_id == dog.id && e.to_id == speak.id));
}

#[test]
fn unsupported_language_is_refused() {
    let r = CodeParser::new().parse_source("x", "cobol", "a.cob");
    assert!(matches!(r, Err(ParseError::UnsupportedLanguage)));
    let r = CodeParser::new().parse_file("notes.txt", "x");
    assert!(matches!(r, Err(ParseError::UnsupportedLanguage)));
}

#[test]
fn every_grammar_accepts_its_query_and_parses() {
    let samples = [
        ("rust", "fn f() {}"),
        ("python", "def f():\n    pass\n"),
        ("typescript", "function f() {}"),
        ("javascript", "function f() {}"),
        ("go", "package main\nfunc f() {}\n"),
        ("java", "class A { void f() {} }"),
        ("c", "int f(void) { return 0; }"),
        ("cpp", "int f() { return 0; }"),
        ("ruby", "def f\nend\n"),
    ];
    for (lang, src) in samples {
        let r = CodeParser::new().parse_source(src, lang, "a");
        assert!(r.is_ok(), "{} should parse", lang);
        assert!(!r.unwrap().symbols.is_empty(), "{} should yield a symbol", lang);
        // Unparseable text still gives a tree, and so a result.
        assert!(CodeParser::new().parse_source("}{ ))) ;;; <<<", lang, "b").is_ok());
    }
}

#[test]
fn parse_file_dispatches_markdown() {
    let r = CodeParser::new().parse_file("docs/a.md", "# Hello\nworld\n").unwrap();
    assert_eq!(r.language, "markdown");
    assert_eq!(r.symbols[0].name, "Hello");
}

#[test]
fn languages_come_from_extensions() {
    assert_eq!(detect_language("src/main.rs"), Some("rust"));
    assert_eq!(detect_language("a/b/c.tsx"), Some("typescript"));
    assert_eq!(detect_language("x.hh"), Some("cpp"));
    assert_eq!(detect_language("README.markdown"), Some("markdown"));
    assert_eq!(detect_language("Makefile"), None);
}

#[test]
fn symbol_ids_are_hex_sha256() {
    let result = CodeParser::new().parse_source("fn a() {}", "rust", "a.rs").unwrap();
    let id = &result.symbols[0].id;
    assert_eq!(id.len(), 64);
    assert!(id.chars().all(|c| c.is_ascii_hexdigit()));
}

fn bare_symbol(id: &str, name: &str, start: usize, end: usize) -> Symbol {
    Symbol {
        id: id.to_string(),
        canonical_id: id.to_string(),
        name: name.to_string(),
        kind: SymbolKind::Function,
        file: "a.rs".to_string(),
        line_start: start,
        line_end: end,
        signature: String::new(),
        docstring: None,
        body: String::new(),
        body_hash: String::new(),
        full_hash: String::new(),
        language: "rust".to_string(),
        scope_chain: Vec::new(),
        parent_id: None,
    }
}

#[test]
fn scope_hierarchy_takes_any_lone_range() {
    let out = compute_scope_hierarchy(&vec![bare_symbol("x", "lone", 5, 3)]);
    assert_eq!(out.len(), 1);
    assert_eq!(out[0].parent_id, None);
    assert_eq!(out[0].scope_chain, vec!["lone".to_string()]);
    // A reversed range inside a proper one still finds its parent.
    let out = compute_scope_hierarchy(&vec![bare_symbol("o", "outer", 1, 10), bare_symbol("i", "inner", 5, 3)]);
    assert_eq!(out[1].parent_id, Some("o".to_string()));
    assert_eq!(out[1].scope_chain, vec!["outer".to_string(), "inner".to_string()]);
    assert_eq!(out[0].parent_id, None);
}

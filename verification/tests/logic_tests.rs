use engram::embeddings::build_embedding_text;
use engram::git::{compute_ownership, BlameLine};
use engram::graph::{compute_content_hash, files_to_remove, fts_docstring, needs_sync, walk_graph, SymbolRow};
use engram::intelligence::{
    checked_contradictions, detect_contradictions, exact_clones_of, find_exact_clones, label_from_files, truncate,
    AnnotationView, CloneType,
};
use engram::mcp::{is_resolution_status, pack_context_batch, split_names};
use engram::memory::{annotation_change, within_cascade, AnnotationChange, CascadeWalk};
use engram::parser::treesitter::{CodeParser, Symbol};
use engram::parser::EdgeKind;
use engram::temporal::{detect_rename, track_evolution, ChangeKind};
use engram::watcher::{after_batch, dedup_paths, is_relevant, Debouncer, FsEventKind};

fn row_of(sym: &Symbol) -> SymbolRow {
    let scope: Vec<String> = sym.scope_chain.clone();
    let scope_json = format!(
        "[{}]",
        scope.iter().map(|s| format!("\"{}\"", s)).collect::<Vec<_>>().join(",")
    );
    SymbolRow {
        id: sym.id.clone(),
        canonical_id: sym.canonical_id.clone(),
        name: sym.name.clone(),
        kind: sym.kind.as_str().to_string(),
        file: sym.file.clone(),
        line_start: sym.line_start,
        line_end: sym.line_end,
        signature: sym.signature.clone(),
        docstring: sym.docstring.clone(),
        body_hash: sym.body_hash.clone(),
        full_hash: sym.full_hash.clone(),
        language: sym.language.clone(),
        scope_chain: scope_json,
        parent_id: sym.parent_id.clone(),
    }
}

fn note(id: i64, kind: &str, content: &str) -> AnnotationView {
    AnnotationView {
        id,
        annotation_type: kind.to_string(),
        content: content.to_string(),
        status: "active".to_string(),
    }
}

fn blame(line: usize, hash: &str, author: &str, email: &str, timestamp: i64) -> BlameLine {
    BlameLine {
        line,
        commit_hash: hash.into(),
        author: author.into(),
        email: email.into(),
        timestamp,
        summary: String::new(),
    }
}

// ── Git ──────────────────────────────────────────────────────────────────

#[test]
fn test_compute_ownership() {
    let lines = vec![
        blame(1, "aaa", "Alice", "a@x.com", 100),
        blame(2, "aaa", "Alice", "a@x.com", 100),
        blame(3, "bbb", "Bob", "b@x.com", 200),
    ];

    let ownership = compute_ownership(&lines);
    assert_eq!(ownership.len(), 2);
    assert_eq!(ownership[0].author, "Alice");
    assert_eq!(ownership[0].commits, 2);
    assert_eq!(ownership[1].author, "Bob");
    assert_eq!(ownership[1].commits, 1);
}

#[test]
fn ownership_keeps_latest_timestamp_and_first_email() {
    let lines = vec![
        blame(1, "a", "Ann", "ann@old", 50),
        blame(2, "b", "Ben", "ben@x", 10),
        blame(3, "c", "Ann", "ann@new", 300),
        blame(4, "d", "Ben", "ben@x", 20),
        blame(5, "e", "Ben", "ben@x", 5),
    ];
    let own = compute_ownership(&lines);
    assert_eq!(own.len(), 2);
    assert_eq!(own[0].author, "Ben");
    assert_eq!(own[0].commits, 3);
    assert_eq!(own[0].last_touched, 20);
    assert_eq!(own[1].author, "Ann");
    assert_eq!(own[1].email, "ann@old");
    assert_eq!(own[1].last_touched, 300);
    let total: usize = own.iter().map(|e| e.commits).sum();
    assert_eq!(total, lines.len());
}

#[test]
fn ownership_of_nothing_is_empty() {
    assert!(compute_ownership(&[]).is_empty());
}

// ── Graph ────────────────────────────────────────────────────────────────

#[test]
fn test_idempotent_sync() {
    let parser = CodeParser::new();
    let result = parser.parse_source("fn foo() {}", "rust", "test.rs").unwrap();
    let h1 = compute_content_hash(&result.symbols);
    assert!(needs_sync(None, &h1));
    let h2 = compute_content_hash(&result.symbols);
    assert!(!needs_sync(Some(&h1), &h2), "second sync of identical file should be no-op");
}

#[test]
fn changed_file_needs_sync() {
    let parser = CodeParser::new();
    let a = parser.parse_source("fn foo() {}", "rust", "test.rs").unwrap();
    let b = parser.parse_source("fn foo() { 1; }", "rust", "test.rs").unwrap();
    let ha = compute_content_hash(&a.symbols);
    let hb = compute_content_hash(&b.symbols);
    assert!(needs_sync(Some(&ha), &hb));
    assert_eq!(ha.len(), 64);
}

/// Numbers the symbols named in `edges` (the start first) and lists, for
/// each, its callers (`reverse`) or its callees.
fn call_graph(edges: &[(String, String)], start: &str, reverse: bool) -> (Vec<String>, Vec<Vec<usize>>) {
    let mut ids: Vec<String> = vec![start.to_string()];
    let mut adj: Vec<Vec<usize>> = vec![Vec::new()];
    let slot = |id: &String, ids: &mut Vec<String>, adj: &mut Vec<Vec<usize>>| -> usize {
        match ids.iter().position(|x| x == id) {
            Some(k) => k,
            None => {
                ids.push(id.clone());
                adj.push(Vec::new());
                ids.len() - 1
            }
        }
    };
    for (from, to) in edges {
        let f = slot(from, &mut ids, &mut adj);
        let t = slot(to, &mut ids, &mut adj);
        if reverse {
            adj[t].push(f);
        } else {
            adj[f].push(t);
        }
    }
    (ids, adj)
}

fn walk_ids(edges: &[(String, String)], start: &str, depth: usize, reverse: bool) -> Vec<(String, usize)> {
    let (ids, adj) = call_graph(edges, start, reverse);
    walk_graph(&adj, 0, depth).into_iter().map(|(k, d)| (ids[k].clone(), d)).collect()
}

fn pairs(v: &[(&str, &str)]) -> Vec<(String, String)> {
    v.iter().map(|(a, b)| (a.to_string(), b.to_string())).collect()
}

#[test]
fn test_find_callers() {
    let parser = CodeParser::new();
    let source = r#"
fn leaf() -> bool { true }
fn middle() { leaf(); }
fn top() { middle(); }
"#;
    let result = parser.parse_source(source, "rust", "test.rs").unwrap();
    let leaf = result.symbols.iter().find(|s| s.name == "leaf").unwrap();
    let calls: Vec<(String, String)> = result
        .edges
        .iter()
        .filter(|e| e.kind == EdgeKind::Calls)
        .map(|e| (e.from_id.clone(), e.to_id.clone()))
        .collect();
    let callers = walk_ids(&calls, &leaf.id, 3, true);
    assert!(callers.len() >= 1, "leaf should have at least 1 caller");
    assert_eq!(callers.len(), 2);
    let middle = result.symbols.iter().find(|s| s.name == "middle").unwrap();
    let top = result.symbols.iter().find(|s| s.name == "top").unwrap();
    assert_eq!(callers, vec![(middle.id.clone(), 1), (top.id.clone(), 2)]);
    let deps = walk_ids(&calls, &top.id, 3, false);
    assert_eq!(deps, vec![(middle.id.clone(), 1), (leaf.id.clone(), 2)]);
}

#[test]
fn walk_respects_depth_and_cycles() {
    // a <- b <- c <- a (cycle)
    let edges = pairs(&[("b", "a"), ("c", "b"), ("a", "c")]);
    assert_eq!(walk_ids(&edges, "a", 1, true), vec![("b".to_string(), 1)]);
    assert_eq!(walk_ids(&edges, "a", 5, true), vec![("b".to_string(), 1), ("c".to_string(), 2)]);
    assert_eq!(walk_ids(&edges, "a", 0, true), vec![]);
}

#[test]
fn walk_reports_shortest_distance() {
    // t is called by a and by b; a also calls b. Both call t directly.
    let edges = pairs(&[("a", "t"), ("b", "t"), ("a", "b")]);
    assert_eq!(walk_ids(&edges, "t", 2, true), vec![("a".to_string(), 1), ("b".to_string(), 1)]);
    // x -> y -> z and x -> z: z is one step from x.
    let edges = pairs(&[("x", "y"), ("y", "z"), ("x", "z")]);
    assert_eq!(walk_ids(&edges, "x", 5, false), vec![("y".to_string(), 1), ("z".to_string(), 1)]);
    // A symbol with no callers has none.
    assert_eq!(walk_ids(&edges, "x", 5, true), vec![]);
}

#[test]
fn test_garbage_collection() {
    let stored = vec!["a.rs".to_string(), "b.rs".to_string()];
    let removed = files_to_remove(&stored, &vec!["a.rs".to_string()]);
    assert_eq!(removed.len(), 1);
    assert_eq!(removed[0], "b.rs");
}

#[test]
fn test_constant_values_searchable() {
    let parser = CodeParser::new();
    let source = r#"
const MAX_RETRIES: u32 = 3;
const API_URL: &str = "https://api.example.com";
fn process() {}
"#;
    let result = parser.parse_source(source, "rust", "config.rs").unwrap();
    let url = result.symbols.iter().find(|s| s.name == "API_URL").unwrap();
    let text = fts_docstring(url);
    assert!(text.contains("https://api.example.com"));
}

#[test]
fn test_markdown_searchable() {
    let md_content = "# Authentication\n\nThis module handles JWT token validation.\n\n## Endpoints\n\nPOST /api/auth accepts Bearer tokens.\n";
    let result = engram::parser::markdown::parse_markdown(md_content, "docs/auth.md");
    let texts: Vec<String> = result.symbols.iter().map(fts_docstring).collect();
    assert!(texts.iter().any(|t| t.contains("JWT token")), "should find markdown content via FTS");
    assert!(texts.iter().any(|t| t.contains("Bearer")), "should find 'Bearer' in markdown via FTS");
}

#[test]
fn fts_docstring_skips_long_function_bodies() {
    let mut body_lines = Vec::new();
    for i in 0..40 {
        body_lines.push(format!("    let value_{} = {};", i, i));
    }
    let source = format!("/// Doc.\nfn long() {{\n{}\n}}", body_lines.join("\n"));
    let result = CodeParser::new().parse_source(&source, "rust", "x.rs").unwrap();
    assert_eq!(fts_docstring(&result.symbols[0]), "Doc.");
}

// ── Intelligence ─────────────────────────────────────────────────────────

#[test]
fn test_detect_contradiction() {
    let notes = vec![
        note(1, "explanation", "This function always returns true"),
        note(2, "warning", "This function sometimes returns false"),
    ];
    let contradictions = detect_contradictions("sym", &notes);
    assert!(
        !contradictions.is_empty(),
        "should detect contradiction between 'always' and 'sometimes'"
    );
    assert_eq!(contradictions.len(), 1);
    assert_eq!(contradictions[0].annotation_a_id, 1);
    assert_eq!(contradictions[0].annotation_b_id, 2);
    assert_eq!(
        contradictions[0].reason,
        "Possible contradiction: 'This function always returns true' vs 'This function sometimes returns false' (keywords: always / sometimes)"
    );
}

#[test]
fn test_no_contradiction_for_compatible_annotations() {
    let notes = vec![
        note(1, "explanation", "Processes input data"),
        note(2, "context", "Called by the main handler"),
    ];
    let contradictions = detect_contradictions("sym", &notes);
    assert!(contradictions.is_empty(), "compatible annotations should not be flagged");
}

#[test]
fn test_single_annotation_no_contradiction() {
    let notes = vec![note(1, "explanation", "Does nothing")];
    assert!(detect_contradictions("sym", &notes).is_empty());
}

#[test]
fn stale_annotations_do_not_contradict() {
    let mut b = note(2, "warning", "NEVER call twice");
    b.status = "stale".to_string();
    let notes = vec![note(1, "explanation", "Always safe"), b];
    assert!(detect_contradictions("sym", &notes).is_empty());
}

#[test]
fn contradiction_is_case_insensitive_and_truncates() {
    let long = "ALWAYS ".repeat(10);
    let notes = vec![note(7, "x", &long), note(9, "y", "never")];
    let c = detect_contradictions("s", &notes);
    assert_eq!(c.len(), 1);
    assert!(c[0].reason.contains("...' vs 'never'"));
}

#[test]
fn truncate_adds_ellipsis() {
    assert_eq!(truncate("abcdef", 3), "abc...");
    assert_eq!(truncate("abc", 3), "abc");
}

#[test]
fn test_find_exact_clones() {
    let parser = CodeParser::new();
    let source = "fn duplicate() { println!(\"hello\"); }";
    let r1 = parser.parse_source(source, "rust", "a.rs").unwrap();
    let r2 = parser.parse_source(source, "rust", "b.rs").unwrap();
    let rows: Vec<SymbolRow> = r1.symbols.iter().chain(r2.symbols.iter()).map(row_of).collect();

    let clones = find_exact_clones(&rows);
    assert!(!clones.is_empty(), "should find exact clone across files");
    assert!(matches!(clones[0].clone_type, CloneType::Exact));

    let similar = exact_clones_of(&rows[0], &rows);
    assert_eq!(similar.len(), 1);
    assert_eq!(similar[0].symbol_b_id, rows[1].id);
}

#[test]
fn test_no_same_file_clones() {
    let parser = CodeParser::new();
    let source = "fn a() {}\nfn b() {}";
    let result = parser.parse_source(source, "rust", "test.rs").unwrap();
    let rows: Vec<SymbolRow> = result.symbols.iter().map(row_of).collect();
    let clones = find_exact_clones(&rows);
    assert!(clones.is_empty(), "should not flag same-file as clones");
}

#[test]
fn labels_come_from_common_prefix_or_most_common_file() {
    let files = vec!["src/parser/a.rs".to_string(), "src/parser/b.rs".to_string()];
    assert_eq!(label_from_files(&files), "src/parser");
    let files = vec!["a.rs".to_string(), "b.rs".to_string(), "b.rs".to_string()];
    assert_eq!(label_from_files(&files), "b.rs");
    assert_eq!(label_from_files(&vec![]), "unknown");
}

// ── Memory ───────────────────────────────────────────────────────────────

#[test]
fn annotation_changes_follow_the_hash() {
    assert_eq!(annotation_change(Some("h1"), "h2", "active"), AnnotationChange::MarkStale);
    assert_eq!(annotation_change(Some("h1"), "h1", "stale"), AnnotationChange::Reactivate);
    assert_eq!(annotation_change(Some("h1"), "h1", "active"), AnnotationChange::Keep);
    assert_eq!(annotation_change(None, "h1", "stale"), AnnotationChange::Keep);
}

#[test]
fn test_revert_reactivates() {
    let parser = CodeParser::new();
    let hash_of = |source: &str| -> String {
        let result = parser.parse_source(source, "rust", "test.rs").unwrap();
        result.symbols.iter().find(|s| s.name == "greet").unwrap().full_hash.clone()
    };
    let original_source = r#"fn greet() { println!("hello"); }"#;
    let anchored = hash_of(original_source);

    // Change the function: the annotation anchored at the original goes stale
    let changed = hash_of(r#"fn greet() { println!("goodbye"); }"#);
    let stale = [annotation_change(Some(&anchored), &changed, "active")]
        .iter()
        .filter(|c| **c == AnnotationChange::MarkStale)
        .count();
    assert!(stale >= 1, "should detect staleness");

    // Revert to original: the stale annotation comes back
    let reverted = hash_of(original_source);
    let reactivated = [annotation_change(Some(&anchored), &reverted, "stale")]
        .iter()
        .filter(|c| **c == AnnotationChange::Reactivate)
        .count();
    assert!(reactivated >= 1, "should reactivate annotation on revert");
}

#[test]
fn cascade_reaches_five_hops() {
    assert!(within_cascade(1));
    assert!(within_cascade(5));
    assert!(!within_cascade(6));
}

#[test]
fn test_diamond_cascade_no_double_count() {
    // top calls left and right, both call leaf
    let callers_of = |id: &str| -> Vec<String> {
        match id {
            "leaf" => vec!["left".to_string(), "right".to_string()],
            "left" | "right" => vec!["top".to_string()],
            _ => vec![],
        }
    };
    let mut walk = CascadeWalk::new("leaf", &callers_of("leaf"));
    let mut seen = Vec::new();
    while let Some((id, distance)) = walk.next() {
        seen.push((id.clone(), distance));
        if within_cascade(distance) {
            walk.add_callers(&callers_of(&id));
        }
    }
    let top_count = seen.iter().filter(|(id, _)| id == "top").count();
    assert!(top_count <= 1, "top should appear at most once in cascade (got {})", top_count);
    assert_eq!(
        seen,
        vec![("left".to_string(), 1), ("right".to_string(), 1), ("top".to_string(), 2)]
    );
}

#[test]
fn cascade_stops_expanding_beyond_reach() {
    // a chain n0 <- n1 <- ... <- n9
    let callers_of = |id: &str| -> Vec<String> {
        let k: usize = id[1..].parse().unwrap();
        if k < 9 { vec![format!("n{}", k + 1)] } else { vec![] }
    };
    let mut walk = CascadeWalk::new("n0", &callers_of("n0"));
    let mut seen = Vec::new();
    while let Some((id, distance)) = walk.next() {
        seen.push(distance);
        if within_cascade(distance) {
            walk.add_callers(&callers_of(&id));
        }
    }
    assert_eq!(seen, vec![1, 2, 3, 4, 5, 6]);
}

// ── Temporal ─────────────────────────────────────────────────────────────

#[test]
fn test_track_new_symbols() {
    let parser = CodeParser::new();
    let result = parser.parse_source("fn foo() {}\nfn bar() {}", "rust", "test.rs").unwrap();
    let events = track_evolution(&vec![], &result.symbols, "test.rs");
    assert_eq!(events.len(), 2);
    assert!(events.iter().all(|e| e.change == ChangeKind::Created));
}

#[test]
fn test_track_modified_symbol() {
    let parser = CodeParser::new();
    let r1 = parser.parse_source("fn greet() { println!(\"hello\"); }", "rust", "test.rs").unwrap();
    let old: Vec<SymbolRow> = r1.symbols.iter().map(row_of).collect();
    let r2 = parser.parse_source("fn greet() { println!(\"goodbye\"); }", "rust", "test.rs").unwrap();
    let events = track_evolution(&old, &r2.symbols, "test.rs");
    assert!(
        events.iter().any(|e| e.change.as_str() == "modified"),
        "should detect modification"
    );
    assert_eq!(events[0].description, "body changed in test.rs");
}

#[test]
fn test_track_deleted_symbol() {
    let parser = CodeParser::new();
    let r1 = parser.parse_source("fn keep() {}\nfn remove() {}", "rust", "test.rs").unwrap();
    let old: Vec<SymbolRow> = r1.symbols.iter().map(row_of).collect();
    let r2 = parser.parse_source("fn keep() {}", "rust", "test.rs").unwrap();
    let events = track_evolution(&old, &r2.symbols, "test.rs");
    let removed = old.iter().find(|s| s.name == "remove").unwrap();
    assert!(
        events.iter().any(|e| e.change.as_str() == "deleted" && e.symbol_id == removed.id),
        "should detect deletion"
    );
    assert_eq!(events.len(), 1);
}

#[test]
fn renamed_file_is_detected() {
    let parser = CodeParser::new();
    let src = "fn a() { 1; }\nfn b() { 2; }";
    let old_parse = parser.parse_source(src, "rust", "old.rs").unwrap();
    let old: Vec<SymbolRow> = old_parse.symbols.iter().map(row_of).collect();
    let new = parser.parse_source(src, "rust", "new.rs").unwrap();
    let events = detect_rename(&old, &new.symbols, "old.rs", "new.rs").unwrap();
    assert_eq!(events.len(), 2);
    assert_eq!(events[0].description, "moved from old.rs to new.rs");

    let other = parser.parse_source("fn z() { 9; }", "rust", "new.rs").unwrap();
    assert!(detect_rename(&old, &other.symbols, "old.rs", "new.rs").is_none());
}

// ── Embeddings ───────────────────────────────────────────────────────────

#[test]
fn test_build_embedding_text() {
    let sym = SymbolRow {
        id: "abc".to_string(),
        canonical_id: "def".to_string(),
        name: "validate_token".to_string(),
        kind: "function".to_string(),
        file: "auth.rs".to_string(),
        line_start: 10,
        line_end: 20,
        signature: "pub fn validate_token(token: &str) -> bool".to_string(),
        docstring: Some("Validates the JWT token".to_string()),
        body_hash: "xxx".to_string(),
        full_hash: "yyy".to_string(),
        language: "rust".to_string(),
        scope_chain: r#"["AuthService", "validate_token"]"#.to_string(),
        parent_id: None,
    };

    let text = build_embedding_text(
        &sym,
        &vec!["handle_request".to_string()],
        &vec!["jsonwebtoken".to_string()],
    );

    assert!(text.contains("function validate_token in AuthService"));
    assert!(text.contains("pub fn validate_token"));
    assert!(text.contains("Validates the JWT token"));
    assert!(text.contains("called by: handle_request"));
    assert!(text.contains("uses: jsonwebtoken"));
}

#[test]
fn embedding_text_without_extras_is_one_line() {
    let sym = SymbolRow {
        id: "i".into(),
        canonical_id: "c".into(),
        name: "f".into(),
        kind: "function".into(),
        file: "a.rs".into(),
        line_start: 1,
        line_end: 1,
        signature: String::new(),
        docstring: None,
        body_hash: "b".into(),
        full_hash: "h".into(),
        language: "rust".into(),
        scope_chain: "not json".into(),
        parent_id: None,
    };
    assert_eq!(build_embedding_text(&sym, &vec![], &vec![]), "function f");
}

// ── MCP ──────────────────────────────────────────────────────────────────

#[test]
fn names_are_split_and_trimmed() {
    assert_eq!(split_names(" a, b ,c"), vec!["a", "b", "c"]);
    assert_eq!(split_names(""), vec![""]);
    assert_eq!(split_names("x,,y"), vec!["x", "", "y"]);
}

#[test]
fn insight_statuses() {
    assert!(is_resolution_status("resolved"));
    assert!(is_resolution_status("dismissed"));
    assert!(!is_resolution_status("open"));
}

#[test]
fn context_batch_respects_budget() {
    let names = vec!["a".to_string(), "b".to_string()];
    let briefs = vec!["x".repeat(40), "y".repeat(400)];
    let standards = vec!["s".repeat(400), "t".repeat(40)];
    let calm = vec![0, 0];
    // Budget 100: first brief with its separator (11 tokens) fits, second (101) does not;
    // 89 left < 100: no upgrade.
    let out = pack_context_batch(&names, &briefs, &standards, &calm, 100);
    assert_eq!(out, format!("{}---\n", "x".repeat(40)));
    // Budget 300: both briefs (11 + 101 tokens), then a's header and standard (104);
    // 84 left stops the upgrades.
    let out = pack_context_batch(&names, &briefs, &standards, &calm, 300);
    assert_eq!(
        out,
        format!("{}---\n{}---\n\n[Upgraded: a]\n{}", "x".repeat(40), "y".repeat(400), "s".repeat(400))
    );
    assert!((out.len() + 3) / 4 <= 300);
    assert_eq!(pack_context_batch(&vec![], &vec![], &vec![], &vec![], 10), "No symbols found.");
}

#[test]
fn context_batch_upgrades_highest_attention_first() {
    let names = vec!["a".to_string(), "b".to_string()];
    let briefs = vec!["x".repeat(40), "y".repeat(400)];
    let standards = vec!["s".repeat(400), "t".repeat(40)];
    let out = pack_context_batch(&names, &briefs, &standards, &vec![1, 5], 300);
    assert_eq!(
        out,
        format!(
            "{}---\n{}---\n\n[Upgraded: b]\n{}\n[Upgraded: a]\n{}",
            "x".repeat(40),
            "y".repeat(400),
            "t".repeat(40),
            "s".repeat(400)
        )
    );
}

#[test]
fn context_batch_charges_separators() {
    // A 7-byte brief and its separator make 11 bytes, 3 tokens: over a budget of 1.
    let out = pack_context_batch(&vec!["a".to_string()], &vec!["briefly".to_string()], &vec!["s".to_string()], &vec![0], 1);
    assert_eq!(out, "");
    let out = pack_context_batch(&vec!["a".to_string()], &vec!["briefly".to_string()], &vec!["s".to_string()], &vec![0], 3);
    assert_eq!(out, "briefly---\n");
}

// ── Watcher ──────────────────────────────────────────────────────────────

#[test]
fn debouncer_batches_after_quiet_window() {
    let mut d = Debouncer::new(0);
    d.on_event(FsEventKind::Modify, &vec!["src/a.rs".to_string(), "notes.txt".to_string()], 100);
    assert!(d.on_timeout(2000).is_none());
    let batch = d.on_timeout(3100).unwrap();
    assert_eq!(batch, vec!["src/a.rs".to_string()]);
    assert!(d.on_timeout(10000).is_none());
    d.on_event(FsEventKind::Other, &vec!["src/b.rs".to_string()], 20000);
    assert!(d.on_timeout(30000).is_none());
}

#[test]
fn watcher_decisions() {
    assert!(is_relevant(FsEventKind::Create));
    assert!(!is_relevant(FsEventKind::Other));
    let paths = vec!["a.rs".to_string(), "b.rs".to_string(), "a.rs".to_string()];
    assert_eq!(dedup_paths(&paths), vec!["a.rs".to_string(), "b.rs".to_string()]);
    let plan = after_batch(2, 0);
    assert!(!plan.collect_garbage && !plan.detect_renames && plan.scan_contradictions);
    let plan = after_batch(1, 1);
    assert!(plan.collect_garbage && plan.detect_renames);
}

#[test]
fn walk_ignores_neighbours_outside_the_graph() {
    let adj = vec![vec![5, 1], vec![0, 9]];
    assert_eq!(walk_graph(&adj, 0, 3), vec![(1, 1)]);
}

#[test]
fn deeper_walk_extends_shallower() {
    // 0 -> 1 -> 2 -> 3, 0 -> 2
    let adj = vec![vec![1, 2], vec![2], vec![3], vec![]];
    let shallow = walk_graph(&adj, 0, 1);
    let deep = walk_graph(&adj, 0, 4);
    assert_eq!(shallow, vec![(1, 1), (2, 1)]);
    assert_eq!(deep, vec![(1, 1), (2, 1), (3, 2)]);
    assert!(shallow.iter().all(|p| deep.contains(p)));
}

#[test]
fn checked_contradictions_refuses_split_characters() {
    let notes = vec![note(1, "invariant", "this always holds"), note(2, "invariant", "this sometimes holds")];
    let found = checked_contradictions("sym", &notes).unwrap();
    assert_eq!(found.len(), 1);
    // A content whose 50th byte falls inside a character cannot be quoted.
    let long = format!("{}é always", "a".repeat(49));
    let notes = vec![note(1, "invariant", &long), note(2, "invariant", "never")];
    assert!(checked_contradictions("sym", &notes).is_none());
    assert!(checked_contradictions("sym", &vec![]).unwrap().is_empty());
}

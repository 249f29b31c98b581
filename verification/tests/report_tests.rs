use engram::report::{
    format_codebase_report, format_exploration_map, format_search_results, BlindLine, ExploredLine, ReportEntry,
    SearchHit,
};
use engram::context::{compose_context, tier_of, Tier};
use engram::attention::{
    attention_event, blind_spots, most_called, suggestions, top_by_count, AttentionCounts, AttentionEvent,
};
use engram::cli::{file_context_line, file_matches, skill_registration};
use engram::context::{
    format_brief, format_deep_extra, format_details, format_full_extra, format_standard, format_walk,
    AnnotationLine, GraphEntry, WalkEntry,
};
use engram::git::{format_blame, format_ownership, touches_file, BlameLine, DeltaPaths, OwnershipEntry};
use engram::graph::SymbolRow;
use engram::mcp::{god_node_insight, in_module};

fn row(kind: &str, name: &str, file: &str, start: usize, end: usize) -> SymbolRow {
    SymbolRow {
        id: format!("{}::{}", file, name),
        canonical_id: name.to_string(),
        name: name.to_string(),
        kind: kind.to_string(),
        file: file.to_string(),
        line_start: start,
        line_end: end,
        signature: format!("fn {}()", name),
        docstring: None,
        body_hash: "b".repeat(64),
        full_hash: "0123456789abcdef".repeat(4),
        language: "rust".to_string(),
        scope_chain: "[]".to_string(),
        parent_id: None,
    }
}

fn ann(id: i64, kind: &str, content: &str, percent: &str, status: &str) -> AnnotationLine {
    AnnotationLine {
        id,
        annotation_type: kind.to_string(),
        content: content.to_string(),
        percent: percent.to_string(),
        status: status.to_string(),
    }
}

fn blame(line: usize, hash: &str, author: &str) -> BlameLine {
    BlameLine {
        line,
        commit_hash: hash.to_string(),
        author: author.to_string(),
        email: format!("{}@x.com", author),
        timestamp: 0,
        summary: "msg".to_string(),
    }
}

// ── Ranking ───────────────────────────────────────────────────────────────

#[test]
fn ranking_is_by_count_then_position() {
    let counts = vec![3, 5, 5, 0, 1];
    let keep = vec![true; 5];
    assert_eq!(top_by_count(&counts, &keep, 3), vec![1, 2, 0]);
    assert_eq!(top_by_count(&counts, &keep, 10), vec![1, 2, 0, 4, 3]);
    assert_eq!(top_by_count(&counts, &keep, 0), Vec::<usize>::new());
    let some = vec![true, false, true, true, false];
    assert_eq!(top_by_count(&counts, &some, 10), vec![2, 0, 3]);
}

#[test]
fn most_called_skips_uncalled_and_stops_at_ten() {
    assert_eq!(most_called(&vec![0, 2, 7, 2, 0]), vec![2, 1, 3]);
    let many: Vec<usize> = (1..=12).collect();
    assert_eq!(most_called(&many), vec![11, 10, 9, 8, 7, 6, 5, 4, 3, 2]);
    assert!(most_called(&vec![0, 0]).is_empty());
}

#[test]
fn blind_spots_are_unexplored_and_well_called() {
    let calls = vec![4, 5, 3, 10];
    let edges = vec![4, 9, 3, 10];
    let explored = vec![false, false, false, true];
    assert_eq!(blind_spots(&calls, &edges, &explored), vec![1, 0]);
}

#[test]
fn suggestions_prefer_referenced_unexplored_symbols() {
    let edges = vec![1, 3, 2, 8];
    let explored = vec![false, false, true, true];
    assert_eq!(suggestions(&edges, &explored, 1), vec![1]);
    assert_eq!(suggestions(&edges, &explored, 10), vec![1, 0]);
}

// ── Attention ─────────────────────────────────────────────────────────────

#[test]
fn attention_events_and_importance() {
    assert_eq!(attention_event("view"), Some(AttentionEvent::View));
    assert_eq!(attention_event("query"), Some(AttentionEvent::Query));
    assert_eq!(attention_event("annotate"), Some(AttentionEvent::Annotate));
    assert_eq!(attention_event("other"), None);
    let mut c = AttentionCounts { views: 1, queries: 2, annotations: 3 };
    assert_eq!(c.importance(), 14);
    c.record(Some(AttentionEvent::Query));
    assert_eq!(c.importance(), 16);
    c.record(Some(AttentionEvent::Annotate));
    assert_eq!(c.importance(), 19);
    c.record(Some(AttentionEvent::View));
    assert_eq!(c.importance(), 20);
    c.record(None);
    assert_eq!(c, AttentionCounts { views: 2, queries: 3, annotations: 4 });
}

// ── Git reports ───────────────────────────────────────────────────────────

#[test]
fn blame_report_shortens_hashes() {
    let lines = vec![blame(1, "abcdef0123456789", "Alice"), blame(2, "abc", "Bob")];
    assert_eq!(
        format_blame("src/a.rs", &lines),
        "Blame for src/a.rs:\n  L1: Alice (abcdef0) msg\n  L2: Bob (abc) msg\n"
    );
    assert_eq!(format_blame("src/a.rs", &vec![]), "No blame data for 'src/a.rs'");
}

#[test]
fn blame_report_lists_fifty_lines() {
    let lines: Vec<BlameLine> = (1..=52).map(|i| blame(i, "1234567890", "A")).collect();
    let out = format_blame("f", &lines);
    assert_eq!(out.lines().count(), 1 + 50 + 1);
    assert!(out.ends_with("  L50: A (1234567) msg\n  ... and 2 more lines\n"));
}

#[test]
fn ownership_reports() {
    let es = vec![
        OwnershipEntry { author: "Alice".into(), email: "a@x.com".into(), commits: 2, last_touched: 5 },
        OwnershipEntry { author: "Bob".into(), email: "b@x.com".into(), commits: 1, last_touched: 9 },
    ];
    assert_eq!(
        format_ownership("f.rs", &es, true),
        "Ownership of f.rs (from blame):\n  Alice (a@x.com) — 2 lines\n  Bob (b@x.com) — 1 lines\n"
    );
    assert_eq!(
        format_ownership("f.rs", &es, false),
        "Ownership of f.rs:\n  Alice (a@x.com) — 2 contributions\n  Bob (b@x.com) — 1 contributions\n"
    );
}

#[test]
fn diffs_touch_files_by_old_or_new_path() {
    let d = vec![
        DeltaPaths { old_path: Some("a.rs".into()), new_path: Some("b.rs".into()) },
        DeltaPaths { old_path: None, new_path: Some("c.rs".into()) },
    ];
    assert!(touches_file(&d, "a.rs"));
    assert!(touches_file(&d, "b.rs"));
    assert!(touches_file(&d, "c.rs"));
    assert!(!touches_file(&d, "d.rs"));
    assert!(!touches_file(&vec![], "a.rs"));
}

// ── Tool decisions ────────────────────────────────────────────────────────

#[test]
fn god_nodes_have_more_than_ten_callers() {
    assert_eq!(
        god_node_insight("function", "hub", 11),
        Some("function hub has 11 callers — high coupling risk".to_string())
    );
    assert_eq!(god_node_insight("function", "hub", 10), None);
}

#[test]
fn module_membership() {
    assert!(in_module("src/graph/store.rs", "src/graph"));
    assert!(in_module("crates/x/src/graph/store.rs", "src/graph"));
    assert!(!in_module("src/parser/mod.rs", "graph"));
}

// ── Context and lookups ───────────────────────────────────────────────────

#[test]
fn brief_context_counts_stale_annotations() {
    let sym = row("function", "foo", "src/a.rs", 3, 9);
    assert_eq!(format_brief(&sym, "4", &vec![]), "function foo (src/a.rs:3) risk=4\n");
    let anns = vec![ann(1, "warning", "x", "100", "stale"), ann(2, "todo", "y", "50", "active")];
    assert_eq!(
        format_brief(&sym, "4", &anns),
        "function foo (src/a.rs:3) risk=4 [1 stale annotations]\n"
    );
}

#[test]
fn standard_context_lists_scope_callers_and_annotations() {
    let mut sym = row("method", "run", "src/a.rs", 3, 9);
    sym.docstring = Some("Runs.".to_string());
    let scope = vec!["Engine".to_string(), "run".to_string()];
    let callers = vec![Some("main".to_string()), None, Some("start".to_string())];
    let anns = vec![ann(7, "warning", "slow", "90", "active")];
    assert_eq!(
        format_standard(&sym, &scope, &callers, &anns),
        "method run (src/a.rs:3–9)\n  scope: Engine > run\n  signature: fn run()\n  docstring: Runs.\n  callers: main, start\n  annotation #7 [warning] (90%, active) slow\n"
    );
    let many: Vec<Option<String>> = (0..7).map(|i| Some(format!("c{}", i))).collect();
    let out = format_standard(&sym, &vec![], &many, &vec![]);
    assert!(out.contains("  callers: c0, c1, c2, c3, c4\n"));
    let unreadable = vec![None, None];
    let out = format_standard(&sym, &vec![], &unreadable, &vec![]);
    assert!(out.ends_with("  callers: \n"));
}

#[test]
fn full_context_adds_graphs() {
    let callers = vec![GraphEntry { depth: 1, kind: "function".into(), name: "main".into() }];
    assert_eq!(
        format_full_extra(true, &callers, false, &vec![]),
        "  full caller graph:\n    [depth 1] function main\n"
    );
    assert_eq!(format_full_extra(false, &vec![], false, &vec![]), "");
}

#[test]
fn deep_context_shows_numbered_source() {
    let sym = row("function", "f", "src/a.rs", 2, 3);
    let source = Some(vec!["// head".to_string(), "fn f() {".to_string(), "}".to_string()]);
    let anns = vec![ann(1, "note", "old", "40", "stale"), ann(2, "note", "gone", "10", "resolved")];
    assert_eq!(
        format_deep_extra(&sym, &source, &anns),
        "\n  ── source code ──\n     2 | fn f() {\n     3 | }\n  ── annotations ──\n  #1 [note] (40%, STALE) old\n"
    );
    assert_eq!(
        format_deep_extra(&sym, &None, &anns),
        "\n  (source file not found: src/a.rs)\n"
    );
}

#[test]
fn symbol_details_show_hash_prefix() {
    let sym = row("struct", "Store", "src/store.rs", 10, 20);
    let scope = vec!["Store".to_string()];
    assert_eq!(
        format_details(&sym, &scope),
        "struct Store (src/store.rs:10–20)\n  signature: fn Store()\n  scope: Store\n  docstring: (none)\n  hash: 0123456789ab\n\n"
    );
}

#[test]
fn walk_reports() {
    let es = vec![WalkEntry { depth: 1, kind: "function".into(), name: "main".into(), file: "m.rs".into(), line: 4 }];
    assert_eq!(
        format_walk(true, "leaf", 3, true, &es),
        "Callers of leaf (depth 3):\n  [depth 1] function main (m.rs:4)\n"
    );
    assert_eq!(format_walk(true, "leaf", 3, false, &vec![]), "No callers found for leaf\n");
    assert_eq!(format_walk(false, "leaf", 2, false, &vec![]), "No dependencies found for leaf\n");
    assert_eq!(format_walk(false, "leaf", 2, true, &vec![]), "Dependencies of leaf (depth 2):\n");
}

// ── Editor hook and skill ─────────────────────────────────────────────────

#[test]
fn hook_matches_files_by_suffix() {
    assert!(file_matches("src/a.rs", "/home/me/proj/src/a.rs"));
    assert!(file_matches("/abs/src/a.rs", "src/a.rs"));
    assert!(!file_matches("src/a.rs", "src/b.rs"));
}

#[test]
fn hook_summary_line() {
    let syms = vec![
        row("function", "a", "f.rs", 1, 2),
        row("function", "b", "f.rs", 3, 4),
        row("struct", "C", "f.rs", 5, 6),
        row("function", "d", "f.rs", 7, 8),
    ];
    assert_eq!(
        file_context_line("f.rs", &syms, 5, "12", 0),
        "[engram] f.rs — 4 symbols, 5 callers, risk=12 | top: function a, function b, struct C"
    );
    assert_eq!(
        file_context_line("f.rs", &syms[..1].to_vec(), 0, "1", 2),
        "[engram] f.rs — 1 symbols, 0 callers, risk=1, 2 stale annotations | top: function a"
    );
}

#[test]
fn skill_is_registered_once() {
    let added = skill_registration("# Notes\n").unwrap();
    assert!(added.starts_with("# Notes\n\n\n## Engram\n"));
    assert!(added.contains("`/engram`"));
    assert_eq!(skill_registration(&added), None);
}

#[test]
fn ownership_accounts_for_every_line() {
    let lines = vec![
        blame(1, "a1", "Alice"),
        blame(2, "b1", "Bob"),
        blame(3, "a2", "Alice"),
        blame(4, "c1", "Carol"),
        blame(5, "b2", "Bob"),
        blame(6, "a3", "Alice"),
    ];
    let owners = engram::git::compute_ownership(&lines);
    let total: usize = owners.iter().map(|e| e.commits).sum();
    assert_eq!(total, lines.len());
    assert_eq!(owners[0].author, "Alice");
    assert_eq!(owners[0].commits, 3);
}

#[test]
fn ownership_ties_keep_blame_order() {
    let lines = vec![blame(1, "b1", "Bob"), blame(2, "a1", "Alice"), blame(3, "c1", "Carol"), blame(4, "c2", "Carol")];
    let owners = engram::git::compute_ownership(&lines);
    let names: Vec<&str> = owners.iter().map(|e| e.author.as_str()).collect();
    assert_eq!(names, vec!["Carol", "Bob", "Alice"]);
}

#[test]
fn sha256_hex_matches_the_standard_digest() {
    assert_eq!(
        engram::hashing::sha256_hex("abc"),
        "ba7816bf8f01cfea414140de5dae2223b00361a396177a9cb410ff61f20015ad"
    );
    assert_eq!(engram::hashing::sha256_hex("").len(), 64);
}

#[test]
fn codebase_report_layout() {
    let langs = Some(vec![("rust".to_string(), 3), ("python".to_string(), 1)]);
    let top = vec![ReportEntry { count: 2, kind: "function".into(), name: "leaf".into(), file: "a.rs".into() }];
    let stale = vec![ReportEntry { count: 1, kind: "method".into(), name: "m".into(), file: "b.py".into() }];
    let r = format_codebase_report(4, 5, 2, &langs, &top, &stale);
    assert_eq!(
        r,
        "=== Codebase Report ===\nSymbols: 4 | Edges: 5 | Files: 2\n\n\
         Languages:\n  rust — 3 symbols\n  python — 1 symbols\n\n\
         Most-called symbols (god nodes):\n  2 callers — function leaf (a.rs)\n\n\
         Symbols with stale annotations:\n  1 stale — method m (b.py)\n"
    );
    let bare = format_codebase_report(0, 0, 0, &None, &vec![], &vec![]);
    assert_eq!(bare, "=== Codebase Report ===\nSymbols: 0 | Edges: 0 | Files: 0\n\n");
}

#[test]
fn exploration_map_layout() {
    assert_eq!(format_exploration_map(&vec![], &vec![]), "No symbols explored yet.\n");
    let line = |n: &str| {
        Some(ExploredLine { score: "3".into(), kind: "function".into(), name: n.into(), file: "a.rs".into() })
    };
    let mut explored: Vec<Option<ExploredLine>> = (0..20).map(|i| line(&format!("f{}", i))).collect();
    explored[1] = None;
    let blind = vec![
        Some(BlindLine { kind: "function".into(), name: "hub".into(), file: "b.rs".into(), callers: 7 }),
        None,
    ];
    let r = format_exploration_map(&explored, &blind);
    assert!(r.starts_with("Explored (20 symbols):\n  [3] function f0 (a.rs)\n  [3] function f2 (a.rs)\n"));
    assert!(r.contains("  [3] function f14 (a.rs)\n"));
    assert!(!r.contains("f15"));
    assert!(r.ends_with("\nBlind spots (2 high-caller symbols never explored):\n  function hub (b.rs) — 7 callers\n"));
}

#[test]
fn tiers_by_name_and_extension() {
    assert_eq!(tier_of("brief"), Tier::Brief);
    assert_eq!(tier_of("full"), Tier::Full);
    assert_eq!(tier_of("deep"), Tier::Deep);
    assert_eq!(tier_of("standard"), Tier::Standard);
    assert_eq!(tier_of("anything"), Tier::Standard);
    assert_eq!(compose_context(Tier::Brief, "b", "s", "f", "d"), "b");
    assert_eq!(compose_context(Tier::Standard, "b", "s", "f", "d"), "s");
    assert_eq!(compose_context(Tier::Full, "b", "s", "f", "d"), "sf");
    assert_eq!(compose_context(Tier::Deep, "b", "s", "f", "d"), "sfd");
}

#[test]
fn search_results_layout() {
    assert_eq!(format_search_results("jwt", true, &vec![]), "No results found for 'jwt'");
    let hit = SearchHit {
        score: "0.0328".into(),
        kind: "function".into(),
        name: "validate".into(),
        file: "a.rs".into(),
        line: 3,
        signature: "fn validate()".into(),
    };
    let r = format_search_results("jwt", true, &vec![Some(hit), None]);
    assert_eq!(
        r,
        "Hybrid search results for 'jwt' (RRF: vector + BM25 + graph):\n  [0.0328] function validate (a.rs:3) — fn validate()\n"
    );
    assert_eq!(format_search_results("jwt", false, &vec![None]), "Search results for 'jwt' (BM25):\n");
}

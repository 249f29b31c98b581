use engram::attention::rank_all;
use engram::community::{
    build_call_graph, cohesion_parts, detect_communities, file_labels, group_by_label, order_by_size,
};
use engram::parser::treesitter::CodeParser;
use engram::parser::{EdgeKind, ParseResult};

/// The callers of each symbol of a parse, as indices.
fn callers_of(result: &ParseResult) -> Vec<Vec<usize>> {
    result
        .symbols
        .iter()
        .map(|s| {
            result
                .edges
                .iter()
                .filter(|e| e.kind == EdgeKind::Calls && e.to_id == s.id)
                .filter_map(|e| result.symbols.iter().position(|t| t.id == e.from_id))
                .collect()
        })
        .collect()
}

/// The communities of a parse, largest first, as lists of symbol indices.
fn communities(result: &ParseResult) -> Vec<Vec<usize>> {
    let graph = build_call_graph(&callers_of(result));
    let labels = if graph.links > 0 {
        detect_communities(&graph)
    } else {
        let files: Vec<String> = result.symbols.iter().map(|s| s.file.clone()).collect();
        file_labels(&files)
    };
    let groups = group_by_label(&labels);
    order_by_size(&groups).iter().map(|&k| groups[k].clone()).collect()
}

#[test]
fn graph_links_callers_both_ways_once() {
    // 1 and 2 call 0, 2 calls 1 and itself, 0 calls 2
    let callers = vec![vec![1, 2], vec![2], vec![2, 0]];
    let g = build_call_graph(&callers);
    assert_eq!(g.links, 4);
    assert_eq!(g.adj, vec![vec![1, 2], vec![0, 2], vec![0, 1]]);
}

#[test]
fn separate_triangles_become_separate_communities() {
    let callers = vec![vec![1, 2], vec![2], vec![], vec![4, 5], vec![5], vec![]];
    let g = build_call_graph(&callers);
    assert_eq!(g.links, 6);
    let comm = detect_communities(&g);
    assert_eq!(comm, vec![1, 1, 1, 4, 4, 4]);
    assert_eq!(group_by_label(&comm), vec![vec![0, 1, 2], vec![3, 4, 5]]);
    assert_eq!(cohesion_parts(&g, &vec![0, 1, 2]), (3, 3));
}

#[test]
fn mutual_callers_join() {
    let g = build_call_graph(&vec![vec![1], vec![0]]);
    assert_eq!(detect_communities(&g), vec![1, 1]);
}

#[test]
fn files_group_symbols_in_order_of_first_symbol() {
    let files = vec!["a.rs".to_string(), "b.rs".to_string(), "a.rs".to_string(), "c.rs".to_string(), "b.rs".to_string(), "b.rs".to_string()];
    let labels = file_labels(&files);
    assert_eq!(labels, vec![0, 1, 0, 3, 1, 1]);
    let groups = group_by_label(&labels);
    assert_eq!(groups, vec![vec![0, 2], vec![1, 4, 5], vec![3]]);
    assert_eq!(order_by_size(&groups), vec![1, 0, 2]);
}

#[test]
fn ranking_all_is_a_stable_sort() {
    assert_eq!(rank_all(&vec![2, 5, 2, 7, 0]), vec![3, 1, 0, 2, 4]);
    assert!(rank_all(&vec![]).is_empty());
}

#[test]
fn test_community_detection_with_edges() {
    let parser = CodeParser::new();

    // Two clusters: auth functions call each other, db functions call each other
    let source = r#"
fn validate_token() -> bool { check_signature() }
fn check_signature() -> bool { true }
fn auth_middleware() { validate_token(); }

fn query_db() -> String { format_result() }
fn format_result() -> String { "ok".to_string() }
fn save_record() { query_db(); }
"#;
    let result = parser.parse_source(source, "rust", "test.rs").unwrap();
    let communities = communities(&result);
    assert!(!communities.is_empty(), "should detect at least one community");

    // Total symbols across all communities should match
    let total: usize = communities.iter().map(|c| c.len()).sum();
    assert_eq!(total, result.symbols.len());
}

#[test]
fn test_community_detection_no_edges() {
    let parser = CodeParser::new();
    let source = "fn standalone_a() {}\nfn standalone_b() {}";
    let result = parser.parse_source(source, "rust", "test.rs").unwrap();
    assert_eq!(build_call_graph(&callers_of(&result)).links, 0);

    let communities = communities(&result);
    // Falls back to file-based clustering
    assert!(!communities.is_empty());
    assert_eq!(communities, vec![vec![0, 1]]);
}

#[test]
fn test_cohesion_score() {
    let parser = CodeParser::new();
    let source = r#"
fn a() { b(); }
fn b() { a(); }
"#;
    let result = parser.parse_source(source, "rust", "test.rs").unwrap();
    let graph = build_call_graph(&callers_of(&result));
    for comm in &communities(&result) {
        let (internal, possible) = cohesion_parts(&graph, comm);
        let cohesion = if possible > 0 { internal as f64 / possible as f64 } else { 1.0 };
        assert!(
            (0.0..=1.0).contains(&cohesion),
            "cohesion should be between 0 and 1, got {}",
            cohesion
        );
    }
}

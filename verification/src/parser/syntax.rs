//! Syntax trees from tree-sitter, copied into plain values.
//!
//! The tree-sitter calls stand behind the trusted items of this module; the
//! logic that reads trees works on `SyntaxNode`, the library's own copy.
use vstd::prelude::*;
use streaming_iterator::StreamingIterator;
use tree_sitter::{Language, Node, Query};
use crate::parser::languages::{
    is_code_language, same_text, symbol_query_for, C_QUERY, CPP_QUERY, GO_QUERY, JAVASCRIPT_QUERY, JAVA_QUERY,
    PYTHON_QUERY, RUBY_QUERY, RUST_QUERY, TYPESCRIPT_QUERY,
};

verus! {

#[verifier::external_type_specification]
#[verifier::external_body]
pub struct ExLanguage(tree_sitter::Language);

#[verifier::external_type_specification]
#[verifier::external_body]
pub struct ExQuery(tree_sitter::Query);

#[verifier::external_type_specification]
#[verifier::external_body]
pub struct ExNode<'tree>(tree_sitter::Node<'tree>);

/// A node of a syntax tree: its grammar kind, the field it fills in its
/// parent, its byte range and rows (zero-based), and all its children.
#[derive(Debug)]
pub struct SyntaxNode {
    pub kind: String,
    pub field: Option<String>,
    pub start_byte: usize,
    pub end_byte: usize,
    pub start_row: usize,
    pub end_row: usize,
    pub children: Vec<SyntaxNode>,
}

/// A previous sibling of a definition, as its documentation is read from:
/// its grammar kind and byte range.
#[derive(Debug)]
pub struct Sibling {
    pub kind: String,
    pub start_byte: usize,
    pub end_byte: usize,
}

/// A capture of a query match: the capture's name, the captured node with
/// its whole subtree, and, for a capture whose name ends in `.def`, the
/// node's previous siblings, nearest first, up to and including the first
/// one that is not a comment (empty for other captures).
#[derive(Debug)]
pub struct Capture {
    pub name: String,
    pub node: SyntaxNode,
    pub preceding: Vec<Sibling>,
}

// ── Grammars ──────────────────────────────────────────────────────────────

/// `tree_sitter_rust::LANGUAGE`, the Rust grammar.
#[verifier::external_body]
fn rust_grammar() -> Language {
    tree_sitter_rust::LANGUAGE.into()
}

/// `tree_sitter_python::LANGUAGE`, the Python grammar.
#[verifier::external_body]
fn python_grammar() -> Language {
    tree_sitter_python::LANGUAGE.into()
}

/// `tree_sitter_typescript::LANGUAGE_TSX`, the TypeScript (TSX) grammar.
#[verifier::external_body]
fn typescript_grammar() -> Language {
    tree_sitter_typescript::LANGUAGE_TSX.into()
}

/// `tree_sitter_javascript::LANGUAGE`, the JavaScript grammar.
#[verifier::external_body]
fn javascript_grammar() -> Language {
    tree_sitter_javascript::LANGUAGE.into()
}

/// `tree_sitter_go::LANGUAGE`, the Go grammar.
#[verifier::external_body]
fn go_grammar() -> Language {
    tree_sitter_go::LANGUAGE.into()
}

/// `tree_sitter_java::LANGUAGE`, the Java grammar.
#[verifier::external_body]
fn java_grammar() -> Language {
    tree_sitter_java::LANGUAGE.into()
}

/// `tree_sitter_c::LANGUAGE`, the C grammar.
#[verifier::external_body]
fn c_grammar() -> Language {
    tree_sitter_c::LANGUAGE.into()
}

/// `tree_sitter_cpp::LANGUAGE`, the C++ grammar.
#[verifier::external_body]
fn cpp_grammar() -> Language {
    tree_sitter_cpp::LANGUAGE.into()
}

/// `tree_sitter_ruby::LANGUAGE`, the Ruby grammar.
#[verifier::external_body]
fn ruby_grammar() -> Language {
    tree_sitter_ruby::LANGUAGE.into()
}

/// Returns the tree-sitter Language for the given language name.
pub fn get_language(name: &str) -> (r: Option<Language>)
    ensures
        r is Some <==> is_code_language(name@),
{
    if same_text(name, "rust") {
        Some(rust_grammar())
    } else if same_text(name, "python") {
        Some(python_grammar())
    } else if same_text(name, "typescript") {
        Some(typescript_grammar())
    } else if same_text(name, "javascript") {
        Some(javascript_grammar())
    } else if same_text(name, "go") {
        Some(go_grammar())
    } else if same_text(name, "java") {
        Some(java_grammar())
    } else if same_text(name, "c") {
        Some(c_grammar())
    } else if same_text(name, "cpp") {
        Some(cpp_grammar())
    } else if same_text(name, "ruby") {
        Some(ruby_grammar())
    } else {
        None
    }
}

// ── Parsing and queries, one grammar at a time ─────────────────────────────
//
// Each grammar brought here was generated for tree-sitter's language ABI 14,
// inside the range 13 to 14 that `Parser::set_language` of tree-sitter 0.24
// accepts; and `Parser::parse` returns `None` only when no language is set,
// after a timeout, or on cancellation, and these parsers have neither a
// timeout nor a cancellation flag. So each parse below yields a tree.

/// Whether `Query::new` accepts the query text `query` for the grammar
/// named `grammar`: it rejects a query with a syntax error or with a node
/// type, field, capture or predicate that the grammar lacks.
pub uninterp spec fn query_compiles(grammar: Seq<char>, query: Seq<char>) -> bool;

/// The syntax tree that `Parser::parse` builds for `source` with the grammar
/// named `grammar`, copied node for node (`copy_node`).
pub uninterp spec fn syntax_tree_of(grammar: Seq<char>, source: Seq<char>) -> SyntaxNode;

/// The matches that `QueryCursor::matches` finds for `query` over the syntax
/// tree of `source` in the grammar named `grammar`, in order: for each, its
/// captures as (capture name, captured subtree copied node for node).
pub uninterp spec fn query_matches_of(grammar: Seq<char>, source: Seq<char>, query: Seq<char>) -> Seq<
    Seq<(Seq<char>, SyntaxNode)>,
>;

/// The captures as (name, node), by the names' views.
pub open spec fn raw_view(ms: Seq<Vec<(String, SyntaxNode)>>) -> Seq<Seq<(Seq<char>, SyntaxNode)>> {
    ms.map_values(|g: Vec<(String, SyntaxNode)>| g@.map_values(|c: (String, SyntaxNode)| (c.0@, c.1)))
}

/// `Node` copied into a `SyntaxNode`: kind, the given field, byte range,
/// rows of `Node::start_position` and `Node::end_position`, and every child
/// (`Node::children`, anonymous ones included) with the field
/// `Node::field_name_for_child` gives it. Nodes are opaque here, so nothing
/// is claimed of the copy itself; the grammar wrappers below name it.
#[verifier::external_body]
fn copy_node(node: Node, field: Option<String>) -> SyntaxNode {
    let mut cursor = node.walk();
    let children = node.children(&mut cursor).enumerate()
        .map(|(i, c)| copy_node(c, node.field_name_for_child(i as u32).map(|f| f.to_string())))
        .collect();
    let (kind, start_row, end_row) = (node.kind().to_string(), node.start_position().row, node.end_position().row);
    SyntaxNode { kind, field, start_byte: node.start_byte(), end_byte: node.end_byte(), start_row, end_row, children }
}

/// `QueryCursor::matches` of `query` over the tree under `root`: for each
/// match in order, its captures as (capture name, `copy_node` of the
/// captured node). Nothing is claimed here; the grammar wrappers name it.
#[verifier::external_body]
fn copy_matches(query: &Query, root: Node, source: &str) -> Vec<Vec<(String, SyntaxNode)>> {
    let mut cursor = tree_sitter::QueryCursor::new();
    let mut matches = cursor.matches(query, root, source.as_bytes());
    let names = query.capture_names();
    let mut out = Vec::new();
    while let Some(m) = matches.next() {
        out.push(m.captures.iter().map(|c| (names[c.index as usize].to_string(), copy_node(c.node, None))).collect());
    }
    out
}

/// `Parser::parse` of `source` with `tree_sitter_rust::LANGUAGE` (always a tree, see
/// above), then `Query::new` of the Rust symbol query and
/// `QueryCursor::matches` over that tree: the copied tree and matches, or
/// `None` exactly when the grammar rejects the query. The query is the
/// library's own, so `Query::new` does not reach its error paths unless
/// the grammar rejects it.
#[verifier::external_body]
fn rust_syntax(source: &str, query: &str) -> (r: Option<(SyntaxNode, Vec<Vec<(String, SyntaxNode)>>)>)
    requires
        query@ == RUST_QUERY@,
    ensures
        r is Some <==> query_compiles("rust"@, query@),
        r matches Some((t, ms)) ==> t == syntax_tree_of("rust"@, source@) && raw_view(ms@)
            == query_matches_of("rust"@, source@, query@),
{
    let mut parser = tree_sitter::Parser::new();
    parser.set_language(&tree_sitter_rust::LANGUAGE.into()).ok()?;
    let tree = parser.parse(source, None)?;
    let query = Query::new(&tree_sitter_rust::LANGUAGE.into(), query).ok()?;
    Some((copy_node(tree.root_node(), None), copy_matches(&query, tree.root_node(), source)))
}

/// `Parser::parse` of `source` with `tree_sitter_python::LANGUAGE` (always a tree, see
/// above), then `Query::new` of the Python symbol query and
/// `QueryCursor::matches` over that tree: the copied tree and matches, or
/// `None` exactly when the grammar rejects the query. The query is the
/// library's own, so `Query::new` does not reach its error paths unless
/// the grammar rejects it.
#[verifier::external_body]
fn python_syntax(source: &str, query: &str) -> (r: Option<(SyntaxNode, Vec<Vec<(String, SyntaxNode)>>)>)
    requires
        query@ == PYTHON_QUERY@,
    ensures
        r is Some <==> query_compiles("python"@, query@),
        r matches Some((t, ms)) ==> t == syntax_tree_of("python"@, source@) && raw_view(ms@)
            == query_matches_of("python"@, source@, query@),
{
    let mut parser = tree_sitter::Parser::new();
    parser.set_language(&tree_sitter_python::LANGUAGE.into()).ok()?;
    let tree = parser.parse(source, None)?;
    let query = Query::new(&tree_sitter_python::LANGUAGE.into(), query).ok()?;
    Some((copy_node(tree.root_node(), None), copy_matches(&query, tree.root_node(), source)))
}

/// `Parser::parse` of `source` with `tree_sitter_typescript::LANGUAGE_TSX` (always a tree, see
/// above), then `Query::new` of the TypeScript (TSX) symbol query and
/// `QueryCursor::matches` over that tree: the copied tree and matches, or
/// `None` exactly when the grammar rejects the query. The query is the
/// library's own, so `Query::new` does not reach its error paths unless
/// the grammar rejects it.
#[verifier::external_body]
fn typescript_syntax(source: &str, query: &str) -> (r: Option<(SyntaxNode, Vec<Vec<(String, SyntaxNode)>>)>)
    requires
        query@ == TYPESCRIPT_QUERY@,
    ensures
        r is Some <==> query_compiles("typescript"@, query@),
        r matches Some((t, ms)) ==> t == syntax_tree_of("typescript"@, source@) && raw_view(ms@)
            == query_matches_of("typescript"@, source@, query@),
{
    let mut parser = tree_sitter::Parser::new();
    parser.set_language(&tree_sitter_typescript::LANGUAGE_TSX.into()).ok()?;
    let tree = parser.parse(source, None)?;
    let query = Query::new(&tree_sitter_typescript::LANGUAGE_TSX.into(), query).ok()?;
    Some((copy_node(tree.root_node(), None), copy_matches(&query, tree.root_node(), source)))
}

/// `Parser::parse` of `source` with `tree_sitter_javascript::LANGUAGE` (always a tree, see
/// above), then `Query::new` of the JavaScript symbol query and
/// `QueryCursor::matches` over that tree: the copied tree and matches, or
/// `None` exactly when the grammar rejects the query. The query is the
/// library's own, so `Query::new` does not reach its error paths unless
/// the grammar rejects it.
#[verifier::external_body]
fn javascript_syntax(source: &str, query: &str) -> (r: Option<(SyntaxNode, Vec<Vec<(String, SyntaxNode)>>)>)
    requires
        query@ == JAVASCRIPT_QUERY@,
    ensures
        r is Some <==> query_compiles("javascript"@, query@),
        r matches Some((t, ms)) ==> t == syntax_tree_of("javascript"@, source@) && raw_view(ms@)
            == query_matches_of("javascript"@, source@, query@),
{
    let mut parser = tree_sitter::Parser::new();
    parser.set_language(&tree_sitter_javascript::LANGUAGE.into()).ok()?;
    let tree = parser.parse(source, None)?;
    let query = Query::new(&tree_sitter_javascript::LANGUAGE.into(), query).ok()?;
    Some((copy_node(tree.root_node(), None), copy_matches(&query, tree.root_node(), source)))
}

/// `Parser::parse` of `source` with `tree_sitter_go::LANGUAGE` (always a tree, see
/// above), then `Query::new` of the Go symbol query and
/// `QueryCursor::matches` over that tree: the copied tree and matches, or
/// `None` exactly when the grammar rejects the query. The query is the
/// library's own, so `Query::new` does not reach its error paths unless
/// the grammar rejects it.
#[verifier::external_body]
fn go_syntax(source: &str, query: &str) -> (r: Option<(SyntaxNode, Vec<Vec<(String, SyntaxNode)>>)>)
    requires
        query@ == GO_QUERY@,
    ensures
        r is Some <==> query_compiles("go"@, query@),
        r matches Some((t, ms)) ==> t == syntax_tree_of("go"@, source@) && raw_view(ms@)
            == query_matches_of("go"@, source@, query@),
{
    let mut parser = tree_sitter::Parser::new();
    parser.set_language(&tree_sitter_go::LANGUAGE.into()).ok()?;
    let tree = parser.parse(source, None)?;
    let query = Query::new(&tree_sitter_go::LANGUAGE.into(), query).ok()?;
    Some((copy_node(tree.root_node(), None), copy_matches(&query, tree.root_node(), source)))
}

/// `Parser::parse` of `source` with `tree_sitter_java::LANGUAGE` (always a tree, see
/// above), then `Query::new` of the Java symbol query and
/// `QueryCursor::matches` over that tree: the copied tree and matches, or
/// `None` exactly when the grammar rejects the query. The query is the
/// library's own, so `Query::new` does not reach its error paths unless
/// the grammar rejects it.
#[verifier::external_body]
fn java_syntax(source: &str, query: &str) -> (r: Option<(SyntaxNode, Vec<Vec<(String, SyntaxNode)>>)>)
    requires
        query@ == JAVA_QUERY@,
    ensures
        r is Some <==> query_compiles("java"@, query@),
        r matches Some((t, ms)) ==> t == syntax_tree_of("java"@, source@) && raw_view(ms@)
            == query_matches_of("java"@, source@, query@),
{
    let mut parser = tree_sitter::Parser::new();
    parser.set_language(&tree_sitter_java::LANGUAGE.into()).ok()?;
    let tree = parser.parse(source, None)?;
    let query = Query::new(&tree_sitter_java::LANGUAGE.into(), query).ok()?;
    Some((copy_node(tree.root_node(), None), copy_matches(&query, tree.root_node(), source)))
}

/// `Parser::parse` of `source` with `tree_sitter_c::LANGUAGE` (always a tree, see
/// above), then `Query::new` of the C symbol query and
/// `QueryCursor::matches` over that tree: the copied tree and matches, or
/// `None` exactly when the grammar rejects the query. The query is the
/// library's own, so `Query::new` does not reach its error paths unless
/// the grammar rejects it.
#[verifier::external_body]
fn c_syntax(source: &str, query: &str) -> (r: Option<(SyntaxNode, Vec<Vec<(String, SyntaxNode)>>)>)
    requires
        query@ == C_QUERY@,
    ensures
        r is Some <==> query_compiles("c"@, query@),
        r matches Some((t, ms)) ==> t == syntax_tree_of("c"@, source@) && raw_view(ms@)
            == query_matches_of("c"@, source@, query@),
{
    let mut parser = tree_sitter::Parser::new();
    parser.set_language(&tree_sitter_c::LANGUAGE.into()).ok()?;
    let tree = parser.parse(source, None)?;
    let query = Query::new(&tree_sitter_c::LANGUAGE.into(), query).ok()?;
    Some((copy_node(tree.root_node(), None), copy_matches(&query, tree.root_node(), source)))
}

/// `Parser::parse` of `source` with `tree_sitter_cpp::LANGUAGE` (always a tree, see
/// above), then `Query::new` of the C++ symbol query and
/// `QueryCursor::matches` over that tree: the copied tree and matches, or
/// `None` exactly when the grammar rejects the query. The query is the
/// library's own, so `Query::new` does not reach its error paths unless
/// the grammar rejects it.
#[verifier::external_body]
fn cpp_syntax(source: &str, query: &str) -> (r: Option<(SyntaxNode, Vec<Vec<(String, SyntaxNode)>>)>)
    requires
        query@ == CPP_QUERY@,
    ensures
        r is Some <==> query_compiles("cpp"@, query@),
        r matches Some((t, ms)) ==> t == syntax_tree_of("cpp"@, source@) && raw_view(ms@)
            == query_matches_of("cpp"@, source@, query@),
{
    let mut parser = tree_sitter::Parser::new();
    parser.set_language(&tree_sitter_cpp::LANGUAGE.into()).ok()?;
    let tree = parser.parse(source, None)?;
    let query = Query::new(&tree_sitter_cpp::LANGUAGE.into(), query).ok()?;
    Some((copy_node(tree.root_node(), None), copy_matches(&query, tree.root_node(), source)))
}

/// `Parser::parse` of `source` with `tree_sitter_ruby::LANGUAGE` (always a tree, see
/// above), then `Query::new` of the Ruby symbol query and
/// `QueryCursor::matches` over that tree: the copied tree and matches, or
/// `None` exactly when the grammar rejects the query. The query is the
/// library's own, so `Query::new` does not reach its error paths unless
/// the grammar rejects it.
#[verifier::external_body]
fn ruby_syntax(source: &str, query: &str) -> (r: Option<(SyntaxNode, Vec<Vec<(String, SyntaxNode)>>)>)
    requires
        query@ == RUBY_QUERY@,
    ensures
        r is Some <==> query_compiles("ruby"@, query@),
        r matches Some((t, ms)) ==> t == syntax_tree_of("ruby"@, source@) && raw_view(ms@)
            == query_matches_of("ruby"@, source@, query@),
{
    let mut parser = tree_sitter::Parser::new();
    parser.set_language(&tree_sitter_ruby::LANGUAGE.into()).ok()?;
    let tree = parser.parse(source, None)?;
    let query = Query::new(&tree_sitter_ruby::LANGUAGE.into(), query).ok()?;
    Some((copy_node(tree.root_node(), None), copy_matches(&query, tree.root_node(), source)))
}

/// The syntax tree of `source` and the raw matches of the language's symbol
/// query on it: `None` for a language without a grammar, and when its
/// grammar rejects its query.
fn syntax_of(language: &str, source: &str) -> (r: Option<(SyntaxNode, Vec<Vec<(String, SyntaxNode)>>)>)
    ensures
        r is Some <==> (is_code_language(language@) && query_compiles(
            language@,
            symbol_query_for(language@).unwrap(),
        )),
        r matches Some((t, ms)) ==> t == syntax_tree_of(language@, source@) && raw_view(ms@)
            == query_matches_of(language@, source@, symbol_query_for(language@).unwrap()),
{
    if same_text(language, "rust") {
        rust_syntax(source, RUST_QUERY)
    } else if same_text(language, "python") {
        python_syntax(source, PYTHON_QUERY)
    } else if same_text(language, "typescript") {
        typescript_syntax(source, TYPESCRIPT_QUERY)
    } else if same_text(language, "javascript") {
        javascript_syntax(source, JAVASCRIPT_QUERY)
    } else if same_text(language, "go") {
        go_syntax(source, GO_QUERY)
    } else if same_text(language, "java") {
        java_syntax(source, JAVA_QUERY)
    } else if same_text(language, "c") {
        c_syntax(source, C_QUERY)
    } else if same_text(language, "cpp") {
        cpp_syntax(source, CPP_QUERY)
    } else if same_text(language, "ruby") {
        ruby_syntax(source, RUBY_QUERY)
    } else {
        None
    }
}

// ── Locating captures in the tree ─────────────────────────────────────────

/// A node kind that is a comment in one of the grammars.
pub open spec fn is_comment_kind_of(kind: Seq<char>) -> bool {
    kind == "line_comment"@ || kind == "block_comment"@ || kind == "comment"@
}

/// Whether a node kind is a comment in one of the grammars.
fn is_comment_kind(kind: &str) -> (b: bool)
    ensures
        b == is_comment_kind_of(kind@),
{
    same_text(kind, "line_comment") || same_text(kind, "block_comment") || same_text(kind, "comment")
}

/// A capture name that ends in `.def`: the capture of a whole definition.
pub open spec fn is_def_capture_of(name: Seq<char>) -> bool {
    crate::text::ends_with(name, ".def"@)
}

/// Whether a capture name ends in `.def`.
fn is_def_capture(name: &str) -> (b: bool)
    ensures
        b == is_def_capture_of(name@),
{
    let chars = crate::text::to_chars(name);
    let suffix = crate::text::to_chars(".def");
    crate::text::has_suffix(chars.as_slice(), suffix.as_slice())
}

/// A node as a sibling: its kind and byte range.
pub open spec fn sibling_of(n: SyntaxNode) -> Sibling {
    Sibling { kind: n.kind, start_byte: n.start_byte, end_byte: n.end_byte }
}

/// The siblings before `cs[i]`, nearest first, up to and including the
/// first one that is not a comment.
pub open spec fn siblings_before(cs: Seq<SyntaxNode>, i: int) -> Seq<Sibling>
    decreases i,
{
    if i <= 0 {
        seq![]
    } else {
        seq![sibling_of(cs[i - 1])] + if is_comment_kind_of(cs[i - 1].kind@) {
            siblings_before(cs, i - 1)
        } else {
            seq![]
        }
    }
}

/// `n` has the given kind and byte range.
pub open spec fn at_place(n: SyntaxNode, kind: Seq<char>, start: usize, end: usize) -> bool {
    n.kind@ == kind && n.start_byte == start && n.end_byte == end
}

/// Among the descendants of `n`, in document order, the first one with the
/// given kind and byte range: its siblings before it.
pub open spec fn find_below(n: SyntaxNode, kind: Seq<char>, start: usize, end: usize) -> Option<Seq<Sibling>>
    decreases n, 1nat,
{
    find_among(n.children@, kind, start, end)
}

/// The same search over the trees `cs`, siblings in this order.
pub open spec fn find_among(cs: Seq<SyntaxNode>, kind: Seq<char>, start: usize, end: usize) -> Option<
    Seq<Sibling>,
>
    decreases cs, 0nat,
{
    if cs.len() == 0 {
        None
    } else {
        match find_among(cs.drop_last(), kind, start, end) {
            Some(r) => Some(r),
            None => if at_place(cs.last(), kind, start, end) {
                Some(siblings_before(cs, cs.len() - 1))
            } else {
                find_below(cs.last(), kind, start, end)
            },
        }
    }
}

/// The siblings before the first node of `tree`, in document order, with
/// the kind and byte range of `node`: none when that is the root itself or
/// no node of the tree.
pub open spec fn preceding_in(tree: SyntaxNode, node: SyntaxNode) -> Seq<Sibling> {
    if at_place(tree, node.kind@, node.start_byte, node.end_byte) {
        seq![]
    } else {
        match find_below(tree, node.kind@, node.start_byte, node.end_byte) {
            Some(p) => p,
            None => seq![],
        }
    }
}

/// `c` is the capture made of `raw` in `tree`: its name and node, and, for a
/// definition, the siblings before the node's place in the tree.
pub open spec fn capture_from(c: Capture, tree: SyntaxNode, raw: (Seq<char>, SyntaxNode)) -> bool {
    &&& c.name@ == raw.0
    &&& c.node == raw.1
    &&& c.preceding@ == if is_def_capture_of(raw.0) {
        preceding_in(tree, raw.1)
    } else {
        seq![]
    }
}

/// `ms` are the captures made of the raw matches `raw` in `tree`, match for
/// match and capture for capture.
pub open spec fn captures_from(ms: Seq<Vec<Capture>>, tree: SyntaxNode, raw: Seq<Seq<(Seq<char>, SyntaxNode)>>) -> bool {
    &&& ms.len() == raw.len()
    &&& forall|m: int|
        0 <= m < ms.len() ==> (#[trigger] ms[m])@.len() == raw[m].len() && forall|c: int|
            0 <= c < raw[m].len() ==> capture_from(#[trigger] ms[m]@[c], tree, raw[m][c])
}

proof fn lemma_siblings_before_prefix(cs: Seq<SyntaxNode>, k: int, i: int)
    requires
        0 <= i <= k <= cs.len(),
    ensures
        siblings_before(cs.subrange(0, k), i) == siblings_before(cs, i),
    decreases i,
{
    if i > 0 {
        lemma_siblings_before_prefix(cs, k, i - 1);
        assert(cs.subrange(0, k)[i - 1] == cs[i - 1]);
    }
}

/// The siblings before `cs[i]`.
fn siblings_before_exec(cs: &Vec<SyntaxNode>, i: usize) -> (r: Vec<Sibling>)
    requires
        i <= cs.len(),
    ensures
        r@ == siblings_before(cs@, i as int),
    decreases i,
{
    if i == 0 {
        return Vec::new();
    }
    let s = &cs[i - 1];
    let here = Sibling { kind: s.kind.clone(), start_byte: s.start_byte, end_byte: s.end_byte };
    let mut out: Vec<Sibling> = Vec::new();
    out.push(here);
    if is_comment_kind(s.kind.as_str()) {
        let mut rest = siblings_before_exec(cs, i - 1);
        out.append(&mut rest);
    }
    assert(out@ =~= siblings_before(cs@, i as int));
    out
}

/// A search that succeeds on the first `k` trees gives the same on all.
proof fn lemma_find_among_prefix(cs: Seq<SyntaxNode>, k: int, kind: Seq<char>, start: usize, end: usize)
    requires
        0 <= k <= cs.len(),
        find_among(cs.subrange(0, k), kind, start, end) is Some,
    ensures
        find_among(cs, kind, start, end) == find_among(cs.subrange(0, k), kind, start, end),
    decreases cs.len(),
{
    if k == cs.len() {
        assert(cs.subrange(0, k) =~= cs);
    } else {
        assert(cs.drop_last().subrange(0, k) =~= cs.subrange(0, k));
        lemma_find_among_prefix(cs.drop_last(), k, kind, start, end);
    }
}

/// The search of `find_below`.
fn find_below_exec(n: &SyntaxNode, kind: &str, start: usize, end: usize) -> (r: Option<Vec<Sibling>>)
    ensures
        match r {
            Some(v) => find_below(*n, kind@, start, end) == Some(v@),
            None => find_below(*n, kind@, start, end) is None,
        },
    decreases n,
{
    let cs = &n.children;
    let mut i: usize = 0;
    while i < cs.len()
        invariant
            i <= cs.len(),
            cs@ == n.children@,
            find_among(cs@.subrange(0, i as int), kind@, start, end) is None,
        decreases cs.len() - i,
    {
        let ghost sub = cs@.subrange(0, i + 1);
        assert(sub.drop_last() =~= cs@.subrange(0, i as int));
        assert(sub.last() == cs@[i as int]);
        let c = &cs[i];
        if same_text(c.kind.as_str(), kind) && c.start_byte == start && c.end_byte == end {
            let r = siblings_before_exec(cs, i);
            proof {
                lemma_siblings_before_prefix(cs@, i + 1, i as int);
                lemma_find_among_prefix(cs@, i + 1, kind@, start, end);
            }
            return Some(r);
        }
        match find_below_exec(c, kind, start, end) {
            Some(r) => {
                proof {
                    lemma_find_among_prefix(cs@, i + 1, kind@, start, end);
                }
                return Some(r);
            },
            None => {},
        }
        i = i + 1;
    }
    assert(cs@.subrange(0, cs.len() as int) =~= cs@);
    None
}

/// The siblings of `preceding_in`.
fn preceding_exec(tree: &SyntaxNode, node: &SyntaxNode) -> (r: Vec<Sibling>)
    ensures
        r@ == preceding_in(*tree, *node),
{
    if same_text(tree.kind.as_str(), node.kind.as_str()) && tree.start_byte == node.start_byte
        && tree.end_byte == node.end_byte {
        return Vec::new();
    }
    match find_below_exec(tree, node.kind.as_str(), node.start_byte, node.end_byte) {
        Some(p) => p,
        None => Vec::new(),
    }
}

fn empty_node() -> SyntaxNode {
    SyntaxNode {
        kind: String::new(),
        field: None,
        start_byte: 0,
        end_byte: 0,
        start_row: 0,
        end_row: 0,
        children: Vec::new(),
    }
}

/// The captures made of the raw matches `raw` in `tree`.
fn make_captures(tree: &SyntaxNode, raw: Vec<Vec<(String, SyntaxNode)>>) -> (r: Vec<Vec<Capture>>)
    ensures
        captures_from(r@, *tree, raw_view(raw@)),
{
    let ghost raw0 = raw_view(raw@);
    let mut raw = raw;
    let n = raw.len();
    let mut out: Vec<Vec<Capture>> = Vec::new();
    let mut m: usize = 0;
    while m < n
        invariant
            n == raw.len(),
            m <= n,
            raw0.len() == n,
            forall|k: int| m <= k < n ==> raw_view(raw@)[k] == raw0[k],
            out.len() == m,
            forall|k: int|
                0 <= k < m ==> (#[trigger] out@[k])@.len() == raw0[k].len() && forall|c: int|
                    0 <= c < raw0[k].len() ==> capture_from(#[trigger] out@[k]@[c], *tree, raw0[k][c]),
        decreases n - m,
    {
        let mut group: Vec<(String, SyntaxNode)> = Vec::new();
        let ghost before = raw@;
        raw.set_and_swap(m, &mut group);
        proof {
            assert forall|k: int| m < k < n implies raw_view(raw@)[k] == raw0[k] by {
                assert(raw@[k] == before[k]);
                assert(raw_view(raw@)[k] == raw_view(before)[k]);
            }
            assert(raw_view(before)[m as int] == raw0[m as int]);
        }
        let ghost g0 = group@.map_values(|c: (String, SyntaxNode)| (c.0@, c.1));
        assert(g0 == raw0[m as int]);
        let gn = group.len();
        let mut caps: Vec<Capture> = Vec::new();
        let mut c: usize = 0;
        while c < gn
            invariant
                gn == group.len(),
                c <= gn,
                g0.len() == gn,
                forall|k: int| c <= k < gn ==> (group@[k].0@, group@[k].1) == g0[k],
                caps.len() == c,
                forall|k: int| 0 <= k < c ==> capture_from(#[trigger] caps@[k], *tree, g0[k]),
            decreases gn - c,
        {
            let mut item: (String, SyntaxNode) = (String::new(), empty_node());
            let ghost gb = group@;
            group.set_and_swap(c, &mut item);
            proof {
                assert forall|k: int| c < k < gn implies (group@[k].0@, group@[k].1) == g0[k] by {
                    assert(group@[k] == gb[k]);
                }
            }
            let (name, node) = item;
            let preceding = if is_def_capture(name.as_str()) {
                preceding_exec(tree, &node)
            } else {
                Vec::new()
            };
            let cap = Capture { name, node, preceding };
            assert(capture_from(cap, *tree, g0[c as int]));
            caps.push(cap);
            c = c + 1;
        }
        out.push(caps);
        proof {
            assert(out@[m as int]@.len() == raw0[m as int].len());
        }
        m = m + 1;
    }
    out
}

/// The syntax tree of `source` in `language` and the matches of the
/// language's symbol query on it: `None` exactly for a language without a
/// grammar, and when its grammar rejects its query.
pub fn parse_and_query(language: &str, source: &str) -> (r: Option<(SyntaxNode, Vec<Vec<Capture>>)>)
    ensures
        r is Some <==> (is_code_language(language@) && query_compiles(
            language@,
            symbol_query_for(language@).unwrap(),
        )),
        r matches Some((t, ms)) ==> t == syntax_tree_of(language@, source@) && captures_from(
            ms@,
            t,
            query_matches_of(language@, source@, symbol_query_for(language@).unwrap()),
        ),
{
    let (tree, raw) = syntax_of(language, source)?;
    let matches = make_captures(&tree, raw);
    Some((tree, matches))
}

} // verus!

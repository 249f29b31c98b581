//! Symbol and edge types of the code graph, their identifiers, and the
//! extraction of symbols and edges from syntax trees.
use vstd::prelude::*;
use crate::hashing::{sha256_hex, sha256_hex_of};
use crate::parser::edges::{
    call_edges_of, captures_rows_ok, edge_models, edges_from_file, extract_call_edges,
    extract_inheritance_edges, inherit_in, lemma_kept_from_empty, lemma_kept_trans, tree_rows_fit, tree_rows_ok,
};
use crate::parser::extract::{
    captures_rows_fit, extract_symbol_from_match, is_code_symbol, match_symbols,
};
use crate::parser::languages::{get_symbol_query, is_code_language, same_text, symbol_query_for};
use crate::parser::markdown::{is_markdown_result, parse_markdown};
use crate::parser::{detect_language, language_of_path};
use crate::parser::syntax::{
    captures_from, parse_and_query, query_compiles, query_matches_of, syntax_tree_of, Capture, SyntaxNode,
};
use crate::text::{push_char, push_str};

verus! {

// ── Types ─────────────────────────────────────────────────────────────────

#[derive(Debug, Clone, Copy, PartialEq, Eq, Structural)]
pub enum SymbolKind {
    Function,
    Method,
    Class,
    Struct,
    Enum,
    Trait,
    Interface,
    Module,
    Import,
    TypeAlias,
    Constant,
    Variable,
}

/// The stored name of a symbol kind.
pub open spec fn kind_name(k: SymbolKind) -> Seq<char> {
    match k {
        SymbolKind::Function => "function"@,
        SymbolKind::Method => "method"@,
        SymbolKind::Class => "class"@,
        SymbolKind::Struct => "struct"@,
        SymbolKind::Enum => "enum"@,
        SymbolKind::Trait => "trait"@,
        SymbolKind::Interface => "interface"@,
        SymbolKind::Module => "module"@,
        SymbolKind::Import => "import"@,
        SymbolKind::TypeAlias => "type_alias"@,
        SymbolKind::Constant => "constant"@,
        SymbolKind::Variable => "variable"@,
    }
}

impl SymbolKind {
    pub fn as_str(&self) -> (s: &'static str)
        ensures
            s@ == kind_name(*self),
    {
        match self {
            SymbolKind::Function => "function",
            SymbolKind::Method => "method",
            SymbolKind::Class => "class",
            SymbolKind::Struct => "struct",
            SymbolKind::Enum => "enum",
            SymbolKind::Trait => "trait",
            SymbolKind::Interface => "interface",
            SymbolKind::Module => "module",
            SymbolKind::Import => "import",
            SymbolKind::TypeAlias => "type_alias",
            SymbolKind::Constant => "constant",
            SymbolKind::Variable => "variable",
        }
    }
}

#[derive(Debug, Clone, Copy, PartialEq, Eq, Structural)]
pub enum EdgeKind {
    Calls,
    Imports,
    Inherits,
    Implements,
    Uses,
}

/// The stored name of an edge kind.
pub open spec fn edge_kind_name(k: EdgeKind) -> Seq<char> {
    match k {
        EdgeKind::Calls => "CALLS"@,
        EdgeKind::Imports => "IMPORTS"@,
        EdgeKind::Inherits => "INHERITS"@,
        EdgeKind::Implements => "IMPLEMENTS"@,
        EdgeKind::Uses => "USES"@,
    }
}

impl EdgeKind {
    pub fn as_str(&self) -> (s: &'static str)
        ensures
            s@ == edge_kind_name(*self),
    {
        match self {
            EdgeKind::Calls => "CALLS",
            EdgeKind::Imports => "IMPORTS",
            EdgeKind::Inherits => "INHERITS",
            EdgeKind::Implements => "IMPLEMENTS",
            EdgeKind::Uses => "USES",
        }
    }
}

/// A named definition found in a source file.
#[derive(Debug)]
pub struct Symbol {
    pub id: String,
    pub canonical_id: String,
    pub name: String,
    pub kind: SymbolKind,
    pub file: String,
    pub line_start: usize,
    pub line_end: usize,
    pub signature: String,
    pub docstring: Option<String>,
    pub body: String,
    pub body_hash: String,
    pub full_hash: String,
    pub language: String,
    pub scope_chain: Vec<String>,
    pub parent_id: Option<String>,
}

/// A relation between two symbols. Every edge the parser produces is
/// certain, which `confidence_percent == 100` records.
#[derive(Debug)]
pub struct Edge {
    pub from_id: String,
    pub to_id: String,
    pub kind: EdgeKind,
    pub file: String,
    pub line: Option<usize>,
    pub confidence_percent: u32,
}

/// The symbols and edges found in one file.
#[derive(Debug)]
pub struct ParseResult {
    pub symbols: Vec<Symbol>,
    pub edges: Vec<Edge>,
    pub language: String,
}

/// The views of a list of strings.
pub open spec fn string_views(v: Seq<String>) -> Seq<Seq<char>> {
    v.map_values(|s: String| s@)
}

// ── Identifiers ───────────────────────────────────────────────────────────

/// `a`, `b` and `c` separated by colons.
pub open spec fn colon3(a: Seq<char>, b: Seq<char>, c: Seq<char>) -> Seq<char> {
    a + ":"@ + b + ":"@ + c
}

/// Identifier of a symbol: hash of `file:name:kind`.
pub open spec fn symbol_id_of(file: Seq<char>, name: Seq<char>, kind: SymbolKind) -> Seq<char> {
    sha256_hex_of(colon3(file, name, kind_name(kind)))
}

/// Location-independent identifier: hash of `name:kind:body_hash`.
pub open spec fn canonical_id_of(name: Seq<char>, kind: SymbolKind, body_hash: Seq<char>) -> Seq<
    char,
> {
    sha256_hex_of(colon3(name, kind_name(kind), body_hash))
}

/// Hash of everything an annotation depends on: `signature:body:docstring`,
/// an absent docstring taken as empty.
pub open spec fn full_hash_of(signature: Seq<char>, body: Seq<char>, docstring: Option<Seq<char>>) -> Seq<
    char,
> {
    sha256_hex_of(
        colon3(
            signature,
            body,
            match docstring {
                Some(d) => d,
                None => seq![],
            },
        ),
    )
}

/// The text `a:b:c` as a `String`.
pub fn join3(a: &str, b: &str, c: &str) -> (s: String)
    ensures
        s@ == colon3(a@, b@, c@),
{
    let mut s = String::new();
    push_str(&mut s, a);
    push_char(&mut s, ':');
    push_str(&mut s, b);
    push_char(&mut s, ':');
    push_str(&mut s, c);
    proof {
        reveal_strlit(":");
        assert(s@ =~= colon3(a@, b@, c@));
    }
    s
}

pub fn make_symbol_id(file: &str, name: &str, kind: &SymbolKind) -> (id: String)
    ensures
        id@ == symbol_id_of(file@, name@, *kind),
{
    let text = join3(file, name, kind.as_str());
    sha256_hex(text.as_str())
}

pub fn make_canonical_id(name: &str, kind: &SymbolKind, body_hash: &str) -> (id: String)
    ensures
        id@ == canonical_id_of(name@, *kind, body_hash@),
{
    let text = join3(name, kind.as_str(), body_hash);
    sha256_hex(text.as_str())
}

pub fn make_full_hash(signature: &str, body: &str, docstring: Option<&str>) -> (h: String)
    ensures
        h@ == full_hash_of(
            signature@,
            body@,
            match docstring {
                Some(d) => Some(d@),
                None => None,
            },
        ),
{
    let doc = match docstring {
        Some(d) => d,
        None => "",
    };
    proof {
        reveal_strlit("");
    }
    let text = join3(signature, body, doc);
    sha256_hex(text.as_str())
}

} // verus!

verus! {

// ── Scope hierarchy ───────────────────────────────────────────────────────

/// `p`'s line range contains `s`'s.
pub open spec fn encloses(p: Symbol, s: Symbol) -> bool {
    p.line_start <= s.line_start && p.line_end >= s.line_end
}

/// Symbol `j` may be the parent of symbol `i`: it has another identifier and
/// its line range contains `i`'s.
pub open spec fn is_parent_candidate(ss: Seq<Symbol>, i: int, j: int) -> bool {
    0 <= j < ss.len() && ss[j].id@ != ss[i].id@ && encloses(ss[j], ss[i])
}

pub open spec fn range_size(s: Symbol) -> int {
    s.line_end - s.line_start
}

/// `p` is the innermost parent of `i`: a candidate with the smallest range,
/// and the first one in the list with that size.
pub open spec fn is_innermost_parent(ss: Seq<Symbol>, i: int, p: int) -> bool {
    &&& is_parent_candidate(ss, i, p)
    &&& forall|j: int| #[trigger]
        is_parent_candidate(ss, i, j) ==> range_size(ss[p]) <= range_size(ss[j])
    &&& forall|j: int|
        0 <= j < p && #[trigger] is_parent_candidate(ss, i, j) ==> range_size(ss[j]) > range_size(
            ss[p],
        )
}

/// The identifier of the innermost parent of symbol `i`, if it has one.
pub open spec fn parent_of(ss: Seq<Symbol>, i: int) -> Option<Seq<char>> {
    if exists|j: int| is_parent_candidate(ss, i, j) {
        Some(ss[choose|p: int| is_innermost_parent(ss, i, p)].id@)
    } else {
        None
    }
}

/// The last index at which identifier `x` occurs among the first `n`.
pub open spec fn last_id_index(ids: Seq<Seq<char>>, x: Seq<char>, n: int) -> Option<int>
    decreases n,
{
    if n <= 0 {
        None
    } else if ids[n - 1] == x {
        Some(n - 1)
    } else {
        last_id_index(ids, x, n - 1)
    }
}

/// Names met walking up from parent `cur`, following parent identifiers
/// (the last symbol with an identifier stands for it) and stopping at an
/// identifier already met, at an unknown one, or after `fuel` steps.
pub open spec fn ancestor_names(
    ids: Seq<Seq<char>>,
    names: Seq<Seq<char>>,
    parents: Seq<Option<Seq<char>>>,
    cur: Option<Seq<char>>,
    visited: Seq<Seq<char>>,
    fuel: nat,
) -> Seq<Seq<char>>
    decreases fuel,
{
    if fuel == 0 {
        seq![]
    } else {
        match cur {
            None => seq![],
            Some(pid) => {
                if visited.contains(pid) {
                    seq![]
                } else {
                    match last_id_index(ids, pid, ids.len() as int) {
                        None => seq![],
                        Some(k) => seq![names[k]] + ancestor_names(
                            ids,
                            names,
                            parents,
                            parents[k],
                            visited.push(pid),
                            (fuel - 1) as nat,
                        ),
                    }
                }
            },
        }
    }
}

/// The scope chain of symbol `i`: the names from the outermost ancestor
/// down to the symbol itself.
pub open spec fn scope_chain_of(
    ids: Seq<Seq<char>>,
    names: Seq<Seq<char>>,
    parents: Seq<Option<Seq<char>>>,
    i: int,
) -> Seq<Seq<char>> {
    (seq![names[i]] + ancestor_names(ids, names, parents, parents[i], seq![], (ids.len() + 1) as nat)).reverse()
}

pub open spec fn opt_view(o: Option<String>) -> Option<Seq<char>> {
    match o {
        Some(s) => Some(s@),
        None => None,
    }
}

/// `after` is `before` with the parent identifiers and scope chains that
/// `compute_scope_hierarchy` assigns, everything else unchanged.
pub open spec fn is_scoped(before: Seq<Symbol>, after: Seq<Symbol>) -> bool {
    let ids = before.map_values(|s: Symbol| s.id@);
    let names = before.map_values(|s: Symbol| s.name@);
    let parents = Seq::new(before.len(), |i: int| parent_of(before, i));
    &&& after.len() == before.len()
    &&& forall|i: int|
        0 <= i < before.len() ==> {
            &&& same_except_scope(#[trigger] after[i], before[i])
            &&& opt_view(after[i].parent_id) == parent_of(before, i)
            &&& string_views(after[i].scope_chain@) == scope_chain_of(ids, names, parents, i)
        }
}

/// Every field but `parent_id` and `scope_chain` agrees.
pub open spec fn same_except_scope(a: Symbol, b: Symbol) -> bool {
    &&& a.id@ == b.id@
    &&& a.canonical_id@ == b.canonical_id@
    &&& a.name@ == b.name@
    &&& a.kind == b.kind
    &&& a.file@ == b.file@
    &&& a.line_start == b.line_start
    &&& a.line_end == b.line_end
    &&& a.signature@ == b.signature@
    &&& opt_view(a.docstring) == opt_view(b.docstring)
    &&& a.body@ == b.body@
    &&& a.body_hash@ == b.body_hash@
    &&& a.full_hash@ == b.full_hash@
    &&& a.language@ == b.language@
}

pub open spec fn well_ranged(ss: Seq<Symbol>) -> bool {
    forall|i: int| 0 <= i < ss.len() ==> #[trigger] ss[i].line_start <= ss[i].line_end
}

/// Every symbol that encloses another (with another identifier) starts no
/// later than it ends. Symbols that enclose none may have any range.
pub open spec fn candidates_ranged(ss: Seq<Symbol>) -> bool {
    forall|i: int, j: int|
        0 <= i < ss.len() && #[trigger] is_parent_candidate(ss, i, j) ==> ss[j].line_start <= ss[j].line_end
}

proof fn lemma_innermost_unique(ss: Seq<Symbol>, i: int, p: int, q: int)
    requires
        is_innermost_parent(ss, i, p),
        is_innermost_parent(ss, i, q),
    ensures
        p == q,
{
    assert(is_parent_candidate(ss, i, q));
    assert(is_parent_candidate(ss, i, p));
}

pub fn clone_opt_string(o: &Option<String>) -> (r: Option<String>)
    ensures
        opt_view(r) == opt_view(*o),
{
    match o {
        Some(s) => Some(s.clone()),
        None => None,
    }
}

/// Index of the innermost parent of symbol `i`, if any.
fn innermost_parent(ss: &Vec<Symbol>, i: usize) -> (r: Option<usize>)
    requires
        i < ss.len(),
        candidates_ranged(ss@),
    ensures
        match r {
            Some(p) => is_innermost_parent(ss@, i as int, p as int),
            None => !exists|j: int| is_parent_candidate(ss@, i as int, j),
        },
{
    let mut best: Option<usize> = None;
    let mut j: usize = 0;
    while j < ss.len()
        invariant
            i < ss.len(),
            j <= ss.len(),
            candidates_ranged(ss@),
            match best {
                Some(p) => {
                    &&& p < j
                    &&& is_parent_candidate(ss@, i as int, p as int)
                    &&& forall|k: int|
                        0 <= k < j && #[trigger] is_parent_candidate(ss@, i as int, k) ==> range_size(
                            ss@[p as int],
                        ) <= range_size(ss@[k])
                    &&& forall|k: int|
                        0 <= k < p && #[trigger] is_parent_candidate(ss@, i as int, k) ==> range_size(
                            ss@[k],
                        ) > range_size(ss@[p as int])
                },
                None => forall|k: int| 0 <= k < j ==> !#[trigger] is_parent_candidate(ss@, i as int, k),
            },
        decreases ss.len() - j,
    {
        let same_id = ss[j].id == ss[i].id;
        if !same_id && ss[j].line_start <= ss[i].line_start && ss[j].line_end >= ss[i].line_end {
            assert(is_parent_candidate(ss@, i as int, j as int));
            let size = ss[j].line_end - ss[j].line_start;
            match best {
                None => {
                    best = Some(j);
                },
                Some(p) => {
                    if size < ss[p].line_end - ss[p].line_start {
                        best = Some(j);
                    }
                },
            }
        }
        j = j + 1;
    }
    best
}

proof fn lemma_last_id_index(ids: Seq<Seq<char>>, x: Seq<char>, n: int)
    requires
        n <= ids.len(),
    ensures
        last_id_index(ids, x, n) matches Some(k) ==> 0 <= k < n && ids[k] == x,
    decreases n,
{
    if n > 0 {
        lemma_last_id_index(ids, x, n - 1);
    }
}

/// Whether `x` is among `v`.
fn contains_string(v: &Vec<String>, x: &String) -> (b: bool)
    ensures
        b == string_views(v@).contains(x@),
{
    let mut k: usize = 0;
    while k < v.len()
        invariant
            k <= v.len(),
            forall|m: int| 0 <= m < k ==> v@[m]@ != x@,
        decreases v.len() - k,
    {
        if v[k] == *x {
            assert(string_views(v@)[k as int] == x@);
            return true;
        }
        k = k + 1;
    }
    proof {
        if string_views(v@).contains(x@) {
            let m = choose|m: int| 0 <= m < string_views(v@).len() && string_views(v@)[m] == x@;
            assert(v@[m]@ == x@);
        }
    }
    false
}

/// The last index of a symbol whose identifier is `x`.
fn last_index_of_id(ss: &Vec<Symbol>, x: &String) -> (r: Option<usize>)
    ensures
        match r {
            Some(k) => k < ss.len() && last_id_index(ss@.map_values(|s: Symbol| s.id@), x@, ss.len() as int) == Some(
                k as int,
            ),
            None => last_id_index(ss@.map_values(|s: Symbol| s.id@), x@, ss.len() as int) is None,
        },
{
    let ghost ids = ss@.map_values(|s: Symbol| s.id@);
    proof {
        lemma_last_id_index(ids, x@, ss.len() as int);
    }
    let mut k: usize = ss.len();
    while k > 0
        invariant
            k <= ss.len(),
            ids == ss@.map_values(|s: Symbol| s.id@),
            last_id_index(ids, x@, ss.len() as int) == last_id_index(ids, x@, k as int),
        decreases k,
    {
        if ss[k - 1].id == *x {
            return Some(k - 1);
        }
        k = k - 1;
    }
    None
}

/// The scope chain of symbol `i`, given every symbol's parent identifier.
fn scope_chain_for(ss: &Vec<Symbol>, parents: &Vec<Option<String>>, i: usize) -> (chain: Vec<String>)
    requires
        i < ss.len() < usize::MAX,
        parents.len() == ss.len(),
    ensures
        string_views(chain@) == scope_chain_of(
            ss@.map_values(|s: Symbol| s.id@),
            ss@.map_values(|s: Symbol| s.name@),
            parents@.map_values(|o: Option<String>| opt_view(o)),
            i as int,
        ),
{
    let ghost ids = ss@.map_values(|s: Symbol| s.id@);
    let ghost names = ss@.map_values(|s: Symbol| s.name@);
    let ghost ps = parents@.map_values(|o: Option<String>| opt_view(o));
    let n = ss.len();
    let mut up: Vec<String> = Vec::new();
    up.push(ss[i].name.clone());
    let mut visited: Vec<String> = Vec::new();
    let mut cur: Option<String> = clone_opt_string(&parents[i]);
    let mut fuel: usize = n + 1;
    proof {
        assert(string_views(up@) =~= seq![names[i as int]]);
        assert(string_views(visited@) =~= Seq::<Seq<char>>::empty());
        assert(ps[i as int] == opt_view(parents@[i as int]));
    }
    loop
        invariant
            n == ss.len(),
            i < n,
            parents.len() == n,
            ids == ss@.map_values(|s: Symbol| s.id@),
            names == ss@.map_values(|s: Symbol| s.name@),
            ps == parents@.map_values(|o: Option<String>| opt_view(o)),
            seq![names[i as int]] + ancestor_names(ids, names, ps, ps[i as int], seq![], (n + 1) as nat)
                == string_views(up@) + ancestor_names(
                ids,
                names,
                ps,
                opt_view(cur),
                string_views(visited@),
                fuel as nat,
            ),
        ensures
            ancestor_names(ids, names, ps, opt_view(cur), string_views(visited@), fuel as nat)
                == Seq::<Seq<char>>::empty(),
        decreases fuel,
    {
        if fuel == 0 {
            break;
        }
        match cur {
            None => {
                break;
            },
            Some(pid) => {
                if contains_string(&visited, &pid) {
                    break;
                }
                match last_index_of_id(ss, &pid) {
                    None => {
                        break;
                    },
                    Some(idx) => {
                        let ghost old_up = string_views(up@);
                        let ghost old_visited = string_views(visited@);
                        let ghost rest = ancestor_names(
                            ids,
                            names,
                            ps,
                            ps[idx as int],
                            old_visited.push(pid@),
                            (fuel - 1) as nat,
                        );
                        assert(ancestor_names(ids, names, ps, Some(pid@), old_visited, fuel as nat)
                            == seq![names[idx as int]] + rest);
                        up.push(ss[idx].name.clone());
                        visited.push(pid);
                        cur = clone_opt_string(&parents[idx]);
                        fuel = fuel - 1;
                        proof {
                            assert(string_views(up@) =~= old_up.push(names[idx as int]));
                            assert(string_views(visited@) =~= old_visited.push(pid@));
                            assert(opt_view(cur) == ps[idx as int]);
                            assert(old_up + (seq![names[idx as int]] + rest) =~= old_up.push(
                                names[idx as int],
                            ) + rest);
                        }
                    },
                }
            },
        }
    }
    assert(string_views(up@) + Seq::<Seq<char>>::empty() =~= string_views(up@));
    // Outermost first.
    let mut chain: Vec<String> = Vec::new();
    let mut k: usize = up.len();
    while k > 0
        invariant
            k <= up.len(),
            string_views(chain@) =~= string_views(up@).subrange(k as int, up.len() as int).reverse(),
        decreases k,
    {
        chain.push(up[k - 1].clone());
        k = k - 1;
        assert(string_views(up@).subrange(k as int, up.len() as int).reverse() =~= string_views(up@).subrange(k + 1, up.len() as int).reverse().push(up@[k as int]@));
    }
    assert(string_views(up@).subrange(0, up.len() as int) =~= string_views(up@));
    chain
}

/// A copy of `s` with the given parent and scope chain.
fn with_scope(s: &Symbol, parent_id: Option<String>, scope_chain: Vec<String>) -> (r: Symbol)
    ensures
        same_except_scope(r, *s),
        opt_view(r.parent_id) == opt_view(parent_id),
        string_views(r.scope_chain@) == string_views(scope_chain@),
{
    Symbol {
        id: s.id.clone(),
        canonical_id: s.canonical_id.clone(),
        name: s.name.clone(),
        kind: s.kind,
        file: s.file.clone(),
        line_start: s.line_start,
        line_end: s.line_end,
        signature: s.signature.clone(),
        docstring: clone_opt_string(&s.docstring),
        body: s.body.clone(),
        body_hash: s.body_hash.clone(),
        full_hash: s.full_hash.clone(),
        language: s.language.clone(),
        scope_chain,
        parent_id,
    }
}

/// Computes `parent_id` (the innermost symbol whose line range contains
/// this one) and `scope_chain` (names from the outermost ancestor down)
/// for every symbol.
pub fn compute_scope_hierarchy(symbols: &Vec<Symbol>) -> (r: Vec<Symbol>)
    requires
        candidates_ranged(symbols@),
        symbols.len() < usize::MAX,
    ensures
        is_scoped(symbols@, r@),
{
    let n = symbols.len();
    let mut parents: Vec<Option<String>> = Vec::new();
    let mut i: usize = 0;
    while i < n
        invariant
            n == symbols.len(),
            i <= n,
            candidates_ranged(symbols@),
            parents.len() == i,
            forall|k: int| 0 <= k < i ==> opt_view(#[trigger] parents@[k]) == parent_of(symbols@, k),
        decreases n - i,
    {
        let p = innermost_parent(symbols, i);
        let pid = match p {
            Some(j) => {
                proof {
                    let c = choose|q: int| is_innermost_parent(symbols@, i as int, q);
                    lemma_innermost_unique(symbols@, i as int, j as int, c);
                }
                Some(symbols[j].id.clone())
            },
            None => None,
        };
        parents.push(pid);
        i = i + 1;
    }
    let ghost ps = parents@.map_values(|o: Option<String>| opt_view(o));
    assert(ps =~= Seq::new(symbols@.len(), |k: int| parent_of(symbols@, k)));
    let mut out: Vec<Symbol> = Vec::new();
    let mut i: usize = 0;
    while i < n
        invariant
            n == symbols.len() < usize::MAX,
            i <= n,
            parents.len() == n,
            ps == parents@.map_values(|o: Option<String>| opt_view(o)),
            ps =~= Seq::new(symbols@.len(), |k: int| parent_of(symbols@, k)),
            out.len() == i,
            forall|k: int|
                0 <= k < i ==> {
                    &&& same_except_scope(#[trigger] out@[k], symbols@[k])
                    &&& opt_view(out@[k].parent_id) == parent_of(symbols@, k)
                    &&& string_views(out@[k].scope_chain@) == scope_chain_of(
                        symbols@.map_values(|s: Symbol| s.id@),
                        symbols@.map_values(|s: Symbol| s.name@),
                        ps,
                        k,
                    )
                },
        decreases n - i,
    {
        let chain = scope_chain_for(symbols, &parents, i);
        let parent = clone_opt_string(&parents[i]);
        out.push(with_scope(&symbols[i], parent, chain));
        i = i + 1;
    }
    out
}

/// `p` is the first candidate of smallest range among the first `n` symbols.
spec fn best_below(ss: Seq<Symbol>, i: int, n: int, p: int) -> bool {
    &&& 0 <= p < n
    &&& is_parent_candidate(ss, i, p)
    &&& forall|j: int|
        0 <= j < n && #[trigger] is_parent_candidate(ss, i, j) ==> range_size(ss[p]) <= range_size(
            ss[j],
        )
    &&& forall|j: int|
        0 <= j < p && #[trigger] is_parent_candidate(ss, i, j) ==> range_size(ss[j]) > range_size(
            ss[p],
        )
}

proof fn lemma_best_in_prefix(ss: Seq<Symbol>, i: int, n: int) -> (p: int)
    requires
        0 <= n <= ss.len(),
        exists|j: int| 0 <= j < n && is_parent_candidate(ss, i, j),
    ensures
        best_below(ss, i, n, p),
    decreases n,
{
    if exists|j: int| 0 <= j < n - 1 && is_parent_candidate(ss, i, j) {
        let b = lemma_best_in_prefix(ss, i, n - 1);
        if is_parent_candidate(ss, i, n - 1) && range_size(ss[n - 1]) < range_size(ss[b]) {
            assert forall|j: int|
                0 <= j < n && #[trigger] is_parent_candidate(ss, i, j) implies range_size(
                ss[n - 1],
            ) <= range_size(ss[j]) by {
                if j < n - 1 {
                    assert(range_size(ss[b]) <= range_size(ss[j]));
                }
            }
            assert forall|j: int|
                0 <= j < n - 1 && #[trigger] is_parent_candidate(ss, i, j) implies range_size(ss[j])
                > range_size(ss[n - 1]) by {
                assert(range_size(ss[b]) <= range_size(ss[j]));
            }
            n - 1
        } else {
            assert forall|j: int|
                0 <= j < n && #[trigger] is_parent_candidate(ss, i, j) implies range_size(ss[b])
                <= range_size(ss[j]) by {}
            b
        }
    } else {
        assert forall|j: int|
            0 <= j < n && #[trigger] is_parent_candidate(ss, i, j) implies range_size(ss[n - 1])
            <= range_size(ss[j]) by {
            assert(j == n - 1);
        }
        n - 1
    }
}

/// Some innermost parent exists whenever some candidate does.
proof fn lemma_innermost_exists(ss: Seq<Symbol>, i: int)
    requires
        exists|j: int| is_parent_candidate(ss, i, j),
    ensures
        exists|p: int| is_innermost_parent(ss, i, p),
{
    let p = lemma_best_in_prefix(ss, i, ss.len() as int);
    assert(is_innermost_parent(ss, i, p));
}

/// Law: a symbol's parent is a symbol with another identifier whose line
/// range contains it, and no such symbol has a smaller range.
pub proof fn law_parent_is_innermost_enclosing(before: Seq<Symbol>, after: Seq<Symbol>, i: int)
    requires
        is_scoped(before, after),
        0 <= i < before.len(),
        after[i].parent_id is Some,
    ensures
        exists|p: int|
            #![trigger before[p]]
            0 <= p < before.len() && before[p].id@ == after[i].parent_id.unwrap()@ && before[p].id@
                != before[i].id@ && encloses(before[p], before[i]) && forall|j: int|
                0 <= j < before.len() && before[j].id@ != before[i].id@ && encloses(
                    before[j],
                    before[i],
                ) ==> range_size(before[p]) <= range_size(before[j]),
{
    assert(opt_view(after[i].parent_id) == parent_of(before, i));
    lemma_innermost_exists(before, i);
    let p = choose|p: int| is_innermost_parent(before, i, p);
    assert forall|j: int|
        0 <= j < before.len() && before[j].id@ != before[i].id@ && encloses(
            before[j],
            before[i],
        ) implies range_size(before[p]) <= range_size(before[j]) by {
        assert(is_parent_candidate(before, i, j));
    }
}

/// Law: a symbol's scope chain is never empty and ends with its own name.
pub proof fn law_scope_chain_ends_with_name(before: Seq<Symbol>, after: Seq<Symbol>, i: int)
    requires
        is_scoped(before, after),
        0 <= i < before.len(),
    ensures
        after[i].scope_chain@.len() >= 1,
        after[i].scope_chain@.last()@ == before[i].name@,
{
    let ids = before.map_values(|s: Symbol| s.id@);
    let names = before.map_values(|s: Symbol| s.name@);
    let parents = Seq::new(before.len(), |k: int| parent_of(before, k));
    let up = seq![names[i]] + ancestor_names(ids, names, parents, parents[i], seq![], (ids.len() + 1) as nat);
    assert(string_views(after[i].scope_chain@) == up.reverse());
    assert(up.reverse().last() == up[0]);
    assert(string_views(after[i].scope_chain@).last() == after[i].scope_chain@.last()@);
}

} // verus!

verus! {

// ── Parsing a file ────────────────────────────────────────────────────────

/// `r` is what the parser makes of `source` given its syntax tree `root`
/// and the matches `ms` of the language's symbol query: one symbol per
/// definition match, in match order, with parents and scope chains
/// assigned; then the call edges, each caller–callee pair once, and the
/// inheritance edges in document order.
pub open spec fn is_parse_result(
    r: ParseResult,
    source: Seq<char>,
    language: Seq<char>,
    file: Seq<char>,
    root: SyntaxNode,
    ms: Seq<Vec<Capture>>,
) -> bool {
    let defs = match_symbols(source, language, ms, ms.len() as int);
    &&& r.language@ == language
    &&& exists|raw: Seq<Symbol>|
        #[trigger] is_scoped(raw, r.symbols@) && raw.len() == defs.len() && forall|i: int|
            0 <= i < defs.len() ==> is_code_symbol(#[trigger] raw[i], file, language, defs[i])
    &&& edge_models(r.edges@) == call_edges_of(source, root, r.symbols@) + inherit_in(
        source,
        root,
        language,
        r.symbols@,
    )
    &&& edges_from_file(r.edges@, file)
}

/// The symbols and edges of a file, from its syntax tree and the matches
/// of its language's symbol query.
pub fn build_parse_result(
    root: &SyntaxNode,
    matches: &Vec<Vec<Capture>>,
    source: &str,
    language: &str,
    file: &str,
) -> (r: ParseResult)
    requires
        tree_rows_fit(*root),
        captures_rows_fit(matches@),
        matches.len() < usize::MAX,
    ensures
        is_parse_result(r, source@, language@, file@, *root, matches@),
{
    let ghost ms = matches@;
    let mut raw: Vec<Symbol> = Vec::new();
    let mut m: usize = 0;
    while m < matches.len()
        invariant
            m <= matches.len() < usize::MAX,
            ms == matches@,
            captures_rows_fit(ms),
            raw.len() <= m,
            raw.len() == match_symbols(source@, language@, ms, m as int).len(),
            forall|i: int|
                0 <= i < raw.len() ==> is_code_symbol(
                    #[trigger] raw@[i],
                    file@,
                    language@,
                    match_symbols(source@, language@, ms, m as int)[i],
                ),
            well_ranged(raw@),
        decreases matches.len() - m,
    {
        let caps = &matches[m];
        assert forall|c: int| 0 <= c < caps@.len() implies (#[trigger] caps@[c]).node.start_row
            <= caps@[c].node.end_row < usize::MAX by {
            assert(ms[m as int]@[c] == caps@[c]);
        }
        match extract_symbol_from_match(caps, source, file, language) {
            Some(sym) => {
                raw.push(sym);
            },
            None => {},
        }
        m = m + 1;
    }
    assert(candidates_ranged(raw@)) by {
        assert forall|i: int, j: int| 0 <= i < raw@.len() && #[trigger] is_parent_candidate(raw@, i, j) implies raw@[j].line_start
            <= raw@[j].line_end by {
            assert(raw@[j].line_start <= raw@[j].line_end);
        }
    }
    let symbols = compute_scope_hierarchy(&raw);
    let mut edges: Vec<Edge> = Vec::new();
    assert(edge_models(edges@) =~= seq![]);
    let ghost e0 = edges@;
    extract_call_edges(source, root, &symbols, file, &mut edges);
    let ghost calls = edge_models(edges@);
    let ghost mid = edges@;
    extract_inheritance_edges(root, source, &symbols, file, language, &mut edges);
    proof {
        lemma_kept_trans(e0, mid, edges@, file@);
        assert(e0 =~= seq![]);
        lemma_kept_from_empty(edges@, file@);
    }
    assert(calls =~= call_edges_of(source@, *root, symbols@));
    assert(is_scoped(raw@, symbols@));
    let r = ParseResult { symbols, edges, language: language.to_owned() };
    assert(edge_models(r.edges@) == call_edges_of(source@, *root, r.symbols@) + inherit_in(
        source@,
        *root,
        language@,
        r.symbols@,
    ));
    assert(is_scoped(raw@, r.symbols@));
    r
}

/// The raw matches fit the library's numbering: fewer than `usize::MAX`,
/// and every captured node starts no later than it ends, before the last
/// row number.
pub open spec fn raw_rows_fit(raw: Seq<Seq<(Seq<char>, SyntaxNode)>>) -> bool {
    &&& raw.len() < usize::MAX
    &&& forall|m: int, c: int|
        0 <= m < raw.len() && 0 <= c < raw[m].len() ==> (#[trigger] raw[m][c]).1.start_row <= raw[m][c].1.end_row
            < usize::MAX
}

/// The symbol matches of `source` in `language`, as tree-sitter finds them.
pub open spec fn symbol_matches_of(language: Seq<char>, source: Seq<char>) -> Seq<Seq<(Seq<char>, SyntaxNode)>> {
    query_matches_of(language, source, symbol_query_for(language).unwrap())
}

/// Tree-sitter's tree and matches of `source` in `language` fit the
/// library's numbering.
pub open spec fn parse_fits(language: Seq<char>, source: Seq<char>) -> bool {
    tree_rows_fit(syntax_tree_of(language, source)) && raw_rows_fit(symbol_matches_of(language, source))
}

/// `p` is what parsing `source` as `language` in `file` gives: the result
/// that `build_parse_result` builds from tree-sitter's syntax tree of the
/// source and the captures made of its symbol matches.
pub open spec fn is_parse_of(p: ParseResult, source: Seq<char>, language: Seq<char>, file: Seq<char>) -> bool {
    exists|ms: Seq<Vec<Capture>>|
        #[trigger] captures_from(ms, syntax_tree_of(language, source), symbol_matches_of(language, source))
            && is_parse_result(p, source, language, file, syntax_tree_of(language, source), ms)
}

proof fn lemma_rows_of_captures(ms: Seq<Vec<Capture>>, tree: SyntaxNode, raw: Seq<Seq<(Seq<char>, SyntaxNode)>>)
    requires
        captures_from(ms, tree, raw),
    ensures
        (captures_rows_fit(ms) && ms.len() < usize::MAX) <==> raw_rows_fit(raw),
{
    if captures_rows_fit(ms) {
        assert forall|m: int, c: int| 0 <= m < raw.len() && 0 <= c < raw[m].len() implies (#[trigger] raw[m][c]).1.start_row
            <= raw[m][c].1.end_row < usize::MAX by {
            assert(ms[m]@.len() == raw[m].len());
            assert(ms[m]@[c].node == raw[m][c].1);
        }
    }
    if raw_rows_fit(raw) {
        assert forall|m: int, c: int| 0 <= m < ms.len() && 0 <= c < ms[m]@.len() implies {
            let n = (#[trigger] ms[m]@[c]).node;
            n.start_row <= n.end_row < usize::MAX
        } by {
            assert(ms[m]@.len() == raw[m].len());
            assert(ms[m]@[c].node == raw[m][c].1);
        }
    }
}

/// Why a file could not be parsed.
#[derive(Debug, Clone, Copy, PartialEq, Eq, Structural)]
pub enum ParseError {
    /// No grammar and symbol query exist for the language.
    UnsupportedLanguage,
    /// The grammar does not accept the language's symbol query.
    QueryRejected,
    /// The syntax tree holds what the library cannot number: a row at the
    /// integer limit, a node that ends on a row before the one it starts on,
    /// or as many matches as the integer limit.
    TreeOutOfRange,
}

/// Extracts symbols and edges from source files with tree-sitter.
pub struct CodeParser;

impl CodeParser {
    pub fn new() -> (p: Self) {
        CodeParser
    }

    /// Parses `source`, the text of `file_path`, as `language_name`.
    ///
    /// Fails with `UnsupportedLanguage` exactly when the language has no
    /// grammar, with `QueryRejected` exactly when its grammar does not accept
    /// its symbol query, and with `TreeOutOfRange` exactly when tree-sitter's
    /// tree or matches do not fit the library's numbering. Otherwise the
    /// result is the one `build_parse_result` gives on tree-sitter's tree of
    /// the source and the captures of its symbol matches.
    pub fn parse_source(&self, source: &str, language_name: &str, file_path: &str) -> (r: Result<
        ParseResult,
        ParseError,
    >)
        ensures
            r == Err::<ParseResult, ParseError>(ParseError::UnsupportedLanguage) <==> !is_code_language(
                language_name@,
            ),
            r == Err::<ParseResult, ParseError>(ParseError::QueryRejected) <==> (is_code_language(
                language_name@,
            ) && !query_compiles(language_name@, symbol_query_for(language_name@).unwrap())),
            r == Err::<ParseResult, ParseError>(ParseError::TreeOutOfRange) <==> (is_code_language(
                language_name@,
            ) && query_compiles(language_name@, symbol_query_for(language_name@).unwrap()) && !parse_fits(
                language_name@,
                source@,
            )),
            r matches Ok(p) ==> is_parse_of(p, source@, language_name@, file_path@),
    {
        let (root, matches) = match parse_and_query(language_name, source) {
            Some(t) => t,
            None => {
                if get_symbol_query(language_name).is_none() {
                    return Err(ParseError::UnsupportedLanguage);
                }
                return Err(ParseError::QueryRejected);
            },
        };
        proof {
            lemma_rows_of_captures(matches@, root, symbol_matches_of(language_name@, source@));
        }
        if !tree_rows_ok(&root) || !captures_rows_ok(&matches) || matches.len() == usize::MAX {
            return Err(ParseError::TreeOutOfRange);
        }
        let r = build_parse_result(&root, &matches, source, language_name, file_path);
        assert(captures_from(matches@, syntax_tree_of(language_name@, source@), symbol_matches_of(language_name@, source@)));
        assert(is_parse_of(r, source@, language_name@, file_path@));
        Ok(r)
    }

    /// Parses a file of the given path whose text is `source`: Markdown
    /// into sections, code languages with tree-sitter as `parse_source`
    /// does.
    ///
    /// Fails with `UnsupportedLanguage` exactly when the path's extension
    /// names no language; for a code language it fails and succeeds as
    /// `parse_source` does.
    pub fn parse_file(&self, path: &str, source: &str) -> (r: Result<ParseResult, ParseError>)
        ensures
            r == Err::<ParseResult, ParseError>(ParseError::UnsupportedLanguage) <==> language_of_path(
                path@,
            ) is None,
            language_of_path(path@) == Some("markdown"@) ==> (r matches Ok(p)
                && is_markdown_result(p, source@, path@)),
            match language_of_path(path@) {
                None => true,
                Some(l) => l != "markdown"@ ==> {
                &&& is_code_language(l)
                &&& r == Err::<ParseResult, ParseError>(ParseError::QueryRejected) <==> !query_compiles(
                    l,
                    symbol_query_for(l).unwrap(),
                )
                &&& r == Err::<ParseResult, ParseError>(ParseError::TreeOutOfRange) <==> (query_compiles(
                    l,
                    symbol_query_for(l).unwrap(),
                ) && !parse_fits(l, source@))
                &&& r matches Ok(p) ==> is_parse_of(p, source@, l, path@)
            },
            },
    {
        let language = match detect_language(path) {
            Some(l) => l,
            None => {
                return Err(ParseError::UnsupportedLanguage);
            },
        };
        if same_text(language, "markdown") {
            return Ok(parse_markdown(source, path));
        }
        proof {
            assert(language_of_path(path@) == Some(language@));
            reveal_strlit("markdown");
        }
        let r = self.parse_source(source, language, path);
        r
    }
}

} // verus!

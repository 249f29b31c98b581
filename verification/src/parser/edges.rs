//! Call, inheritance and implementation edges read from a syntax tree.
use vstd::prelude::*;
use crate::parser::docs::{field_child, field_child_from, node_chars};
use crate::parser::extract::node_text;
use crate::parser::languages::same_text;
use crate::parser::syntax::SyntaxNode;
use crate::parser::treesitter::{Edge, EdgeKind, Symbol, SymbolKind};
use crate::text::from_chars;

verus! {

// ── Trees ─────────────────────────────────────────────────────────────────

/// Every node of the tree has `start_row <= end_row < usize::MAX`.
pub open spec fn tree_rows_fit(n: SyntaxNode) -> bool
    decreases n, 1nat,
{
    &&& n.start_row <= n.end_row < usize::MAX
    &&& forest_rows_fit(n.children@)
}

/// Every tree of the list has `tree_rows_fit`.
pub open spec fn forest_rows_fit(cs: Seq<SyntaxNode>) -> bool
    decreases cs, 0nat,
{
    if cs.len() == 0 {
        true
    } else {
        forest_rows_fit(cs.drop_last()) && tree_rows_fit(cs.last())
    }
}

pub proof fn lemma_forest_rows_fit(cs: Seq<SyntaxNode>, i: int)
    requires
        forest_rows_fit(cs),
        0 <= i < cs.len(),
    ensures
        tree_rows_fit(cs[i]),
    decreases cs.len(),
{
    if i < cs.len() - 1 {
        assert(cs.drop_last()[i] == cs[i]);
        lemma_forest_rows_fit(cs.drop_last(), i);
    }
}

// ── Edge models ───────────────────────────────────────────────────────────

/// An edge as (from, to, kind, line).
pub open spec fn edge_model(e: Edge) -> (Seq<char>, Seq<char>, EdgeKind, int) {
    (
        e.from_id@,
        e.to_id@,
        e.kind,
        match e.line {
            Some(l) => l as int,
            None => -1,
        },
    )
}

pub open spec fn edge_models(es: Seq<Edge>) -> Seq<(Seq<char>, Seq<char>, EdgeKind, int)> {
    es.map_values(|e: Edge| edge_model(e))
}

/// Every edge was found in `file`, is certain, and has a line.
pub open spec fn edges_from_file(es: Seq<Edge>, file: Seq<char>) -> bool {
    forall|i: int|
        0 <= i < es.len() ==> {
            &&& (#[trigger] es[i]).file@ == file
            &&& es[i].confidence_percent == 100
            &&& es[i].line is Some
        }
}

/// `after` keeps every edge of `before` in its place and adds only edges
/// found in `file`, certain and with a line.
pub open spec fn kept_and_from_file(before: Seq<Edge>, after: Seq<Edge>, file: Seq<char>) -> bool {
    &&& before.len() <= after.len()
    &&& forall|i: int| 0 <= i < before.len() ==> after[i] == before[i]
    &&& edges_from_file(after.subrange(before.len() as int, after.len() as int), file)
}

pub proof fn lemma_kept_trans(a: Seq<Edge>, b: Seq<Edge>, c: Seq<Edge>, file: Seq<char>)
    requires
        kept_and_from_file(a, b, file),
        kept_and_from_file(b, c, file),
    ensures
        kept_and_from_file(a, c, file),
{
    let bc = c.subrange(b.len() as int, c.len() as int);
    let ab = b.subrange(a.len() as int, b.len() as int);
    assert forall|i: int| 0 <= i < c.len() - a.len() implies {
        &&& (#[trigger] c.subrange(a.len() as int, c.len() as int)[i]).file@ == file
        &&& c.subrange(a.len() as int, c.len() as int)[i].confidence_percent == 100
        &&& c.subrange(a.len() as int, c.len() as int)[i].line is Some
    } by {
        if a.len() + i < b.len() {
            assert(c[a.len() + i] == b[a.len() + i]);
            assert(ab[i] == b[a.len() + i]);
        } else {
            assert(bc[a.len() + i - b.len()] == c[a.len() + i]);
        }
    }
}

proof fn lemma_kept_push(a: Seq<Edge>, b: Seq<Edge>, e: Edge, file: Seq<char>)
    requires
        kept_and_from_file(a, b, file),
        e.file@ == file,
        e.confidence_percent == 100,
        e.line is Some,
    ensures
        kept_and_from_file(a, b.push(e), file),
{
    let ab = b.subrange(a.len() as int, b.len() as int);
    assert(b.push(e).subrange(a.len() as int, b.len() + 1 as int) =~= ab.push(e));
}

/// Edges added to none are all found in `file`.
pub proof fn lemma_kept_from_empty(after: Seq<Edge>, file: Seq<char>)
    requires
        kept_and_from_file(seq![], after, file),
    ensures
        edges_from_file(after, file),
{
    assert(after.subrange(0, after.len() as int) =~= after);
}

/// `acc` with `e` appended, unless an edge with the same ends and kind is
/// already in it.
pub open spec fn add_edge(
    acc: Seq<(Seq<char>, Seq<char>, EdgeKind, int)>,
    e: (Seq<char>, Seq<char>, EdgeKind, int),
) -> Seq<(Seq<char>, Seq<char>, EdgeKind, int)> {
    if exists|j: int| 0 <= j < acc.len() && acc[j].0 == e.0 && acc[j].1 == e.1 && acc[j].2 == e.2 {
        acc
    } else {
        acc.push(e)
    }
}

/// `add_edge` for each of `es` in order.
pub open spec fn add_edges(
    acc: Seq<(Seq<char>, Seq<char>, EdgeKind, int)>,
    es: Seq<(Seq<char>, Seq<char>, EdgeKind, int)>,
) -> Seq<(Seq<char>, Seq<char>, EdgeKind, int)>
    decreases es.len(),
{
    if es.len() == 0 {
        acc
    } else {
        add_edge(add_edges(acc, es.drop_last()), es.last())
    }
}

pub proof fn lemma_add_edges_append(
    acc: Seq<(Seq<char>, Seq<char>, EdgeKind, int)>,
    a: Seq<(Seq<char>, Seq<char>, EdgeKind, int)>,
    b: Seq<(Seq<char>, Seq<char>, EdgeKind, int)>,
)
    ensures
        add_edges(acc, a + b) == add_edges(add_edges(acc, a), b),
    decreases b.len(),
{
    if b.len() == 0 {
        assert(a + b =~= a);
    } else {
        assert((a + b).drop_last() =~= a + b.drop_last());
        lemma_add_edges_append(acc, a, b.drop_last());
    }
}

/// No two edges share both ends and the kind.
pub open spec fn edges_distinct(es: Seq<(Seq<char>, Seq<char>, EdgeKind, int)>) -> bool {
    forall|i: int, j: int|
        0 <= i < j < es.len() ==> !(es[i].0 == es[j].0 && es[i].1 == es[j].1 && es[i].2 == es[j].2)
}

/// Every edge links two different symbols.
pub open spec fn no_self_edges(es: Seq<(Seq<char>, Seq<char>, EdgeKind, int)>) -> bool {
    forall|i: int| 0 <= i < es.len() ==> (#[trigger] es[i]).0 != es[i].1
}

proof fn lemma_add_edges_distinct(
    acc: Seq<(Seq<char>, Seq<char>, EdgeKind, int)>,
    es: Seq<(Seq<char>, Seq<char>, EdgeKind, int)>,
)
    requires
        edges_distinct(acc),
    ensures
        edges_distinct(add_edges(acc, es)),
    decreases es.len(),
{
    if es.len() > 0 {
        lemma_add_edges_distinct(acc, es.drop_last());
        let prev = add_edges(acc, es.drop_last());
        let e = es.last();
        if !(exists|j: int| 0 <= j < prev.len() && prev[j].0 == e.0 && prev[j].1 == e.1 && prev[j].2 == e.2) {
            assert forall|i: int, j: int| 0 <= i < j < prev.push(e).len() implies !(prev.push(e)[i].0
                == prev.push(e)[j].0 && prev.push(e)[i].1 == prev.push(e)[j].1 && prev.push(e)[i].2
                == prev.push(e)[j].2) by {
                if j == prev.len() {
                    assert(prev.push(e)[i] == prev[i]);
                }
            }
        }
    }
}

proof fn lemma_add_edges_no_self(
    acc: Seq<(Seq<char>, Seq<char>, EdgeKind, int)>,
    es: Seq<(Seq<char>, Seq<char>, EdgeKind, int)>,
)
    requires
        no_self_edges(acc),
        no_self_edges(es),
    ensures
        no_self_edges(add_edges(acc, es)),
    decreases es.len(),
{
    if es.len() > 0 {
        assert(no_self_edges(es.drop_last())) by {
            assert forall|i: int| 0 <= i < es.drop_last().len() implies (#[trigger] es.drop_last()[i]).0
                != es.drop_last()[i].1 by {
                assert(es.drop_last()[i] == es[i]);
            }
        }
        lemma_add_edges_no_self(acc, es.drop_last());
        let prev = add_edges(acc, es.drop_last());
        assert(es.last() == es[es.len() - 1]);
        assert forall|i: int| 0 <= i < prev.push(es.last()).len() implies (#[trigger] prev.push(es.last())[i]).0
            != prev.push(es.last())[i].1 by {
            if i < prev.len() {
                assert(prev.push(es.last())[i] == prev[i]);
            }
        }
    }
}

proof fn lemma_calls_in_no_self(
    source: Seq<char>,
    n: SyntaxNode,
    ls: int,
    le: int,
    caller: Seq<char>,
    ss: Seq<Symbol>,
)
    ensures
        no_self_edges(calls_in(source, n, ls, le, caller, ss)),
        forall|i: int|
            0 <= i < calls_in(source, n, ls, le, caller, ss).len() ==> (#[trigger] calls_in(
                source,
                n,
                ls,
                le,
                caller,
                ss,
            )[i]).0 == caller,
    decreases n, 1nat,
{
    if !(n.end_row + 1 < ls || n.start_row + 1 > le) {
        lemma_calls_forest_no_self(source, n.children@, ls, le, caller, ss);
        let h = call_here(source, n, caller, ss);
        let f = calls_in_forest(source, n.children@, ls, le, caller, ss);
        assert forall|i: int| 0 <= i < (h + f).len() implies (#[trigger] (h + f)[i]).0 == caller && (h
            + f)[i].0 != (h + f)[i].1 by {
            if i >= h.len() {
                assert((h + f)[i] == f[i - h.len()]);
            }
        }
    }
}

proof fn lemma_calls_forest_no_self(
    source: Seq<char>,
    cs: Seq<SyntaxNode>,
    ls: int,
    le: int,
    caller: Seq<char>,
    ss: Seq<Symbol>,
)
    ensures
        no_self_edges(calls_in_forest(source, cs, ls, le, caller, ss)),
        forall|i: int|
            0 <= i < calls_in_forest(source, cs, ls, le, caller, ss).len() ==> (#[trigger] calls_in_forest(
                source,
                cs,
                ls,
                le,
                caller,
                ss,
            )[i]).0 == caller,
    decreases cs, 0nat,
{
    if cs.len() > 0 {
        lemma_calls_forest_no_self(source, cs.drop_last(), ls, le, caller, ss);
        lemma_calls_in_no_self(source, cs.last(), ls, le, caller, ss);
        let a = calls_in_forest(source, cs.drop_last(), ls, le, caller, ss);
        let b = calls_in(source, cs.last(), ls, le, caller, ss);
        assert forall|i: int| 0 <= i < (a + b).len() implies (#[trigger] (a + b)[i]).0 == caller && (a
            + b)[i].0 != (a + b)[i].1 by {
            if i >= a.len() {
                assert((a + b)[i] == b[i - a.len()]);
            }
        }
    }
}

proof fn lemma_calls_of_symbols_no_self(source: Seq<char>, root: SyntaxNode, ss: Seq<Symbol>, k: int)
    ensures
        no_self_edges(calls_of_symbols(source, root, ss, k)),
    decreases k,
{
    if k > 0 {
        lemma_calls_of_symbols_no_self(source, root, ss, k - 1);
        let a = calls_of_symbols(source, root, ss, k - 1);
        let b = if makes_calls(ss[k - 1].kind) {
            calls_in(source, root, ss[k - 1].line_start as int, ss[k - 1].line_end as int, ss[k - 1].id@, ss)
        } else {
            seq![]
        };
        if makes_calls(ss[k - 1].kind) {
            lemma_calls_in_no_self(source, root, ss[k - 1].line_start as int, ss[k - 1].line_end as int, ss[k - 1].id@, ss);
        }
        assert forall|i: int| 0 <= i < (a + b).len() implies (#[trigger] (a + b)[i]).0 != (a + b)[i].1 by {
            if i >= a.len() {
                assert((a + b)[i] == b[i - a.len()]);
            } else {
                assert((a + b)[i] == a[i]);
            }
        }
    }
}

/// A file's call edges name each caller–callee pair once, and no symbol is
/// recorded as calling itself.
pub proof fn law_call_edges_distinct(source: Seq<char>, root: SyntaxNode, ss: Seq<Symbol>)
    ensures
        edges_distinct(call_edges_of(source, root, ss)),
        no_self_edges(call_edges_of(source, root, ss)),
{
    lemma_add_edges_distinct(seq![], calls_of_symbols(source, root, ss, ss.len() as int));
    lemma_calls_of_symbols_no_self(source, root, ss, ss.len() as int);
    lemma_add_edges_no_self(seq![], calls_of_symbols(source, root, ss, ss.len() as int));
}

/// `e` is a `Calls` edge from `caller` to another symbol of `ss`, one of a
/// callable kind.
pub open spec fn call_from(e: (Seq<char>, Seq<char>, EdgeKind, int), caller: Seq<char>, ss: Seq<Symbol>) -> bool {
    &&& e.0 == caller
    &&& e.1 != caller
    &&& e.2 == EdgeKind::Calls
    &&& exists|k: int| 0 <= k < ss.len() && (#[trigger] ss[k]).id@ == e.1 && is_callable(ss[k].kind)
}

proof fn lemma_id_for_name(ss: Seq<Symbol>, name: Seq<char>, k: int)
    requires
        k <= ss.len(),
    ensures
        id_for_name(ss, name, true, k) matches Some(id) ==> exists|j: int|
            0 <= j < ss.len() && (#[trigger] ss[j]).id@ == id && is_callable(ss[j].kind),
    decreases k,
{
    if k > 0 {
        lemma_id_for_name(ss, name, k - 1);
        if ss[k - 1].name@ == name && is_callable(ss[k - 1].kind) {
            assert(ss[k - 1].id@ == ss[k - 1].id@);
        }
    }
}

proof fn lemma_calls_in_from(source: Seq<char>, n: SyntaxNode, ls: int, le: int, caller: Seq<char>, ss: Seq<Symbol>)
    ensures
        forall|i: int|
            0 <= i < calls_in(source, n, ls, le, caller, ss).len() ==> call_from(
                #[trigger] calls_in(source, n, ls, le, caller, ss)[i],
                caller,
                ss,
            ),
    decreases n, 1nat,
{
    if !(n.end_row + 1 < ls || n.start_row + 1 > le) {
        lemma_calls_forest_from(source, n.children@, ls, le, caller, ss);
        let h = call_here(source, n, caller, ss);
        let f = calls_in_forest(source, n.children@, ls, le, caller, ss);
        if h.len() > 0 {
            let c = callee_name(source, n)->0;
            lemma_id_for_name(ss, c, ss.len() as int);
        }
        assert forall|i: int| 0 <= i < (h + f).len() implies call_from(#[trigger] (h + f)[i], caller, ss) by {
            if i >= h.len() {
                assert((h + f)[i] == f[i - h.len()]);
            } else {
                assert((h + f)[i] == h[i]);
            }
        }
    }
}

proof fn lemma_calls_forest_from(
    source: Seq<char>,
    cs: Seq<SyntaxNode>,
    ls: int,
    le: int,
    caller: Seq<char>,
    ss: Seq<Symbol>,
)
    ensures
        forall|i: int|
            0 <= i < calls_in_forest(source, cs, ls, le, caller, ss).len() ==> call_from(
                #[trigger] calls_in_forest(source, cs, ls, le, caller, ss)[i],
                caller,
                ss,
            ),
    decreases cs, 0nat,
{
    if cs.len() > 0 {
        lemma_calls_forest_from(source, cs.drop_last(), ls, le, caller, ss);
        lemma_calls_in_from(source, cs.last(), ls, le, caller, ss);
        let a = calls_in_forest(source, cs.drop_last(), ls, le, caller, ss);
        let b = calls_in(source, cs.last(), ls, le, caller, ss);
        assert forall|i: int| 0 <= i < (a + b).len() implies call_from(#[trigger] (a + b)[i], caller, ss) by {
            if i >= a.len() {
                assert((a + b)[i] == b[i - a.len()]);
            } else {
                assert((a + b)[i] == a[i]);
            }
        }
    }
}

/// `add_edges` keeps `acc` in front, in place, and appends only edges of
/// `es`.
proof fn lemma_add_edges_prefix(
    acc: Seq<(Seq<char>, Seq<char>, EdgeKind, int)>,
    es: Seq<(Seq<char>, Seq<char>, EdgeKind, int)>,
)
    ensures
        acc.len() <= add_edges(acc, es).len(),
        forall|i: int| 0 <= i < acc.len() ==> #[trigger] add_edges(acc, es)[i] == acc[i],
        forall|i: int| acc.len() <= i < add_edges(acc, es).len() ==> es.contains(#[trigger] add_edges(acc, es)[i]),
    decreases es.len(),
{
    if es.len() > 0 {
        lemma_add_edges_prefix(acc, es.drop_last());
        let prev = add_edges(acc, es.drop_last());
        let r = add_edges(acc, es);
        assert forall|i: int| acc.len() <= i < r.len() implies es.contains(#[trigger] r[i]) by {
            if i < prev.len() {
                assert(r[i] == prev[i]);
                assert(es.drop_last().contains(prev[i]));
                let j = choose|j: int| 0 <= j < es.drop_last().len() && es.drop_last()[j] == prev[i];
                assert(es[j] == prev[i]);
            } else {
                assert(r[i] == es.last());
                assert(es[es.len() - 1] == es.last());
            }
        }
        assert forall|i: int| 0 <= i < acc.len() implies #[trigger] r[i] == acc[i] by {
            assert(r[i] == prev[i]);
        }
    }
}

/// Finding the calls from `caller` in lines `ls..=le` and adding them to
/// `acc`: the edges already there stay in place; if no two of them share
/// both ends and the kind, no two of the result do; and each added edge is
/// a `Calls` edge from `caller` to another, callable symbol of the file.
pub proof fn law_calls_added(
    acc: Seq<(Seq<char>, Seq<char>, EdgeKind, int)>,
    source: Seq<char>,
    node: SyntaxNode,
    ls: int,
    le: int,
    caller: Seq<char>,
    ss: Seq<Symbol>,
)
    requires
        edges_distinct(acc),
    ensures
        ({
            let r = add_edges(acc, calls_in(source, node, ls, le, caller, ss));
            &&& acc.len() <= r.len()
            &&& forall|i: int| 0 <= i < acc.len() ==> #[trigger] r[i] == acc[i]
            &&& edges_distinct(r)
            &&& forall|i: int| acc.len() <= i < r.len() ==> call_from(#[trigger] r[i], caller, ss)
        }),
{
    let es = calls_in(source, node, ls, le, caller, ss);
    let r = add_edges(acc, es);
    lemma_add_edges_prefix(acc, es);
    lemma_add_edges_distinct(acc, es);
    lemma_calls_in_from(source, node, ls, le, caller, ss);
    assert forall|i: int| acc.len() <= i < r.len() implies call_from(#[trigger] r[i], caller, ss) by {
        assert(es.contains(r[i]));
        let j = choose|j: int| 0 <= j < es.len() && es[j] == r[i];
        assert(call_from(es[j], caller, ss));
    }
}

// ── Name lookup ───────────────────────────────────────────────────────────

/// Kinds that calls can reach.
pub open spec fn is_callable(k: SymbolKind) -> bool {
    k == SymbolKind::Function || k == SymbolKind::Method || k == SymbolKind::Class
}

/// Kinds whose bodies are searched for calls.
pub open spec fn makes_calls(k: SymbolKind) -> bool {
    k == SymbolKind::Function || k == SymbolKind::Method
}

/// The identifier a name maps to among the first `k` symbols (restricted
/// to callable kinds when `callable_only`): the last such symbol wins, as
/// when a map is filled in order.
pub open spec fn id_for_name(ss: Seq<Symbol>, name: Seq<char>, callable_only: bool, k: int) -> Option<
    Seq<char>,
>
    decreases k,
{
    if k <= 0 {
        None
    } else if ss[k - 1].name@ == name && (!callable_only || is_callable(ss[k - 1].kind)) {
        Some(ss[k - 1].id@)
    } else {
        id_for_name(ss, name, callable_only, k - 1)
    }
}

/// The identifier that `name` maps to.
pub open spec fn lookup(ss: Seq<Symbol>, name: Seq<char>, callable_only: bool) -> Option<Seq<char>> {
    id_for_name(ss, name, callable_only, ss.len() as int)
}

// ── Calls ─────────────────────────────────────────────────────────────────

pub open spec fn is_call_kind(kind: Seq<char>) -> bool {
    kind == "call_expression"@ || kind == "call"@
}

pub open spec fn is_name_kind(kind: Seq<char>) -> bool {
    kind == "identifier"@ || kind == "field_identifier"@ || kind == "property_identifier"@
}

pub open spec fn is_member_kind(kind: Seq<char>) -> bool {
    kind == "member_expression"@ || kind == "field_expression"@ || kind == "selector_expression"@
}

/// The last of the first `k` nodes that is an identifier.
pub open spec fn last_name_child(cs: Seq<SyntaxNode>, k: int) -> Option<SyntaxNode>
    decreases k,
{
    if k <= 0 {
        None
    } else if is_name_kind(cs[k - 1].kind@) {
        Some(cs[k - 1])
    } else {
        last_name_child(cs, k - 1)
    }
}

/// The name a call calls: the callee itself when it is an identifier, the
/// last identifier of a member access, and otherwise the callee's text.
pub open spec fn callee_name(source: Seq<char>, call: SyntaxNode) -> Option<Seq<char>> {
    match field_child(call, "function"@) {
        None => None,
        Some(f) => if f.kind@ == "identifier"@ || f.kind@ == "field_identifier"@ {
            node_text(source, f)
        } else if is_member_kind(f.kind@) {
            match last_name_child(f.children@, f.children@.len() as int) {
                None => None,
                Some(c) => node_text(source, c),
            }
        } else {
            node_text(source, f)
        },
    }
}

/// The call edge that node `n` makes from `caller`, if it is a call of a
/// known callable other than the caller.
pub open spec fn call_here(source: Seq<char>, n: SyntaxNode, caller: Seq<char>, ss: Seq<Symbol>) -> Seq<
    (Seq<char>, Seq<char>, EdgeKind, int),
> {
    if is_call_kind(n.kind@) {
        match callee_name(source, n) {
            None => seq![],
            Some(c) => match lookup(ss, c, true) {
                None => seq![],
                Some(id) => if id != caller {
                    seq![(caller, id, EdgeKind::Calls, n.start_row + 1)]
                } else {
                    seq![]
                },
            },
        }
    } else {
        seq![]
    }
}

/// The calls made from `caller` in the subtree of `n`, in document order,
/// skipping subtrees that lie wholly outside lines `ls..=le`.
pub open spec fn calls_in(
    source: Seq<char>,
    n: SyntaxNode,
    ls: int,
    le: int,
    caller: Seq<char>,
    ss: Seq<Symbol>,
) -> Seq<(Seq<char>, Seq<char>, EdgeKind, int)>
    decreases n, 1nat,
{
    if n.end_row + 1 < ls || n.start_row + 1 > le {
        seq![]
    } else {
        call_here(source, n, caller, ss) + calls_in_forest(source, n.children@, ls, le, caller, ss)
    }
}

pub open spec fn calls_in_forest(
    source: Seq<char>,
    cs: Seq<SyntaxNode>,
    ls: int,
    le: int,
    caller: Seq<char>,
    ss: Seq<Symbol>,
) -> Seq<(Seq<char>, Seq<char>, EdgeKind, int)>
    decreases cs, 0nat,
{
    if cs.len() == 0 {
        seq![]
    } else {
        calls_in_forest(source, cs.drop_last(), ls, le, caller, ss) + calls_in(
            source,
            cs.last(),
            ls,
            le,
            caller,
            ss,
        )
    }
}

/// The calls found for the first `k` symbols, each function or method
/// searched over its own lines.
pub open spec fn calls_of_symbols(source: Seq<char>, root: SyntaxNode, ss: Seq<Symbol>, k: int) -> Seq<
    (Seq<char>, Seq<char>, EdgeKind, int),
>
    decreases k,
{
    if k <= 0 {
        seq![]
    } else {
        calls_of_symbols(source, root, ss, k - 1) + if makes_calls(ss[k - 1].kind) {
            calls_in(
                source,
                root,
                ss[k - 1].line_start as int,
                ss[k - 1].line_end as int,
                ss[k - 1].id@,
                ss,
            )
        } else {
            seq![]
        }
    }
}

/// The call edges of a file: every call found, the repeated ones (same
/// caller and callee) dropped.
pub open spec fn call_edges_of(source: Seq<char>, root: SyntaxNode, ss: Seq<Symbol>) -> Seq<
    (Seq<char>, Seq<char>, EdgeKind, int),
> {
    add_edges(seq![], calls_of_symbols(source, root, ss, ss.len() as int))
}

// ── Inheritance ───────────────────────────────────────────────────────────

/// `Inherits` edges from `class_id` to each identifier among `cs` that
/// names a symbol.
pub open spec fn base_edges(
    source: Seq<char>,
    cs: Seq<SyntaxNode>,
    class_id: Seq<char>,
    ss: Seq<Symbol>,
    line: int,
) -> Seq<(Seq<char>, Seq<char>, EdgeKind, int)>
    decreases cs.len(),
{
    if cs.len() == 0 {
        seq![]
    } else {
        base_edges(source, cs.drop_last(), class_id, ss, line) + if cs.last().kind@
            == "identifier"@ {
            match node_text(source, cs.last()) {
                None => seq![],
                Some(b) => match lookup(ss, b, false) {
                    None => seq![],
                    Some(bid) => seq![(class_id, bid, EdgeKind::Inherits, line)],
                },
            }
        } else {
            seq![]
        }
    }
}

/// The text of the child filling field `f`, if both exist.
pub open spec fn field_text(source: Seq<char>, n: SyntaxNode, f: Seq<char>) -> Option<Seq<char>> {
    match field_child(n, f) {
        None => None,
        Some(c) => node_text(source, c),
    }
}

/// The inheritance edges node `n` itself declares: a Python class's bases,
/// or the trait a Rust `impl` implements for a type.
pub open spec fn inherit_here(source: Seq<char>, n: SyntaxNode, language: Seq<char>, ss: Seq<Symbol>) -> Seq<
    (Seq<char>, Seq<char>, EdgeKind, int),
> {
    let line = n.start_row + 1;
    if language == "python"@ && n.kind@ == "class_definition"@ {
        match field_child(n, "superclasses"@) {
            None => seq![],
            Some(bases) => match field_text(source, n, "name"@) {
                None => seq![],
                Some(cn) => match lookup(ss, cn, false) {
                    None => seq![],
                    Some(cid) => base_edges(source, bases.children@, cid, ss, line),
                },
            },
        }
    } else if language == "rust"@ && n.kind@ == "impl_item"@ {
        if field_child(n, "trait"@) is Some && field_child(n, "type"@) is Some {
            match (field_text(source, n, "trait"@), field_text(source, n, "type"@)) {
                (Some(tn), Some(ty)) => match (lookup(ss, ty, false), lookup(ss, tn, false)) {
                    (Some(type_id), Some(trait_id)) => seq![
                        (type_id, trait_id, EdgeKind::Implements, line),
                    ],
                    _ => seq![],
                },
                _ => seq![],
            }
        } else {
            seq![]
        }
    } else {
        seq![]
    }
}

/// The inheritance edges of the subtree of `n`, in document order.
pub open spec fn inherit_in(source: Seq<char>, n: SyntaxNode, language: Seq<char>, ss: Seq<Symbol>) -> Seq<
    (Seq<char>, Seq<char>, EdgeKind, int),
>
    decreases n, 1nat,
{
    inherit_here(source, n, language, ss) + inherit_in_forest(source, n.children@, language, ss)
}

pub open spec fn inherit_in_forest(
    source: Seq<char>,
    cs: Seq<SyntaxNode>,
    language: Seq<char>,
    ss: Seq<Symbol>,
) -> Seq<(Seq<char>, Seq<char>, EdgeKind, int)>
    decreases cs, 0nat,
{
    if cs.len() == 0 {
        seq![]
    } else {
        inherit_in_forest(source, cs.drop_last(), language, ss) + inherit_in(
            source,
            cs.last(),
            language,
            ss,
        )
    }
}

} // verus!

verus! {

// ── Executable ────────────────────────────────────────────────────────────

/// The text of a node as a `String`.
fn node_string(source: &str, n: &SyntaxNode) -> (r: Option<String>)
    ensures
        match r {
            Some(t) => node_text(source@, *n) == Some(t@),
            None => node_text(source@, *n) is None,
        },
{
    crate::parser::extract::text_slice(source, n.start_byte, n.end_byte)
}

fn is_callable_exec(k: SymbolKind) -> (b: bool)
    ensures
        b == is_callable(k),
{
    match k {
        SymbolKind::Function | SymbolKind::Method | SymbolKind::Class => true,
        _ => false,
    }
}

fn makes_calls_exec(k: SymbolKind) -> (b: bool)
    ensures
        b == makes_calls(k),
{
    match k {
        SymbolKind::Function | SymbolKind::Method => true,
        _ => false,
    }
}

/// Index of the symbol whose identifier `name` maps to.
fn lookup_index(ss: &Vec<Symbol>, name: &str, callable_only: bool) -> (r: Option<usize>)
    ensures
        match r {
            Some(k) => k < ss.len() && lookup(ss@, name@, callable_only) == Some(ss@[k as int].id@),
            None => lookup(ss@, name@, callable_only) is None,
        },
{
    let mut k: usize = ss.len();
    while k > 0
        invariant
            k <= ss.len(),
            lookup(ss@, name@, callable_only) == id_for_name(ss@, name@, callable_only, k as int),
        decreases k,
    {
        let s = &ss[k - 1];
        if same_text(s.name.as_str(), name) && (!callable_only || is_callable_exec(s.kind)) {
            return Some(k - 1);
        }
        k = k - 1;
    }
    None
}

/// The name a call node calls.
fn callee_name_exec(source: &str, call: &SyntaxNode) -> (r: Option<String>)
    ensures
        match r {
            Some(t) => callee_name(source@, *call) == Some(t@),
            None => callee_name(source@, *call) is None,
        },
{
    proof {
        reveal_strlit("function");
    }
    let fi = crate::parser::docs::field_child_index(call, "function")?;
    let f = &call.children[fi];
    let fk = f.kind.as_str();
    if same_text(fk, "identifier") || same_text(fk, "field_identifier") {
        node_string(source, f)
    } else if same_text(fk, "member_expression") || same_text(fk, "field_expression") || same_text(
        fk,
        "selector_expression",
    ) {
        let mut k: usize = f.children.len();
        while k > 0
            invariant
                k <= f.children.len(),
                field_child(*call, "function"@) == Some(*f),
                is_member_kind(f.kind@),
                !(f.kind@ == "identifier"@ || f.kind@ == "field_identifier"@),
                last_name_child(f.children@, f.children@.len() as int) == last_name_child(
                    f.children@,
                    k as int,
                ),
            decreases k,
        {
            let ck = f.children[k - 1].kind.as_str();
            if same_text(ck, "identifier") || same_text(ck, "field_identifier") || same_text(
                ck,
                "property_identifier",
            ) {
                assert(last_name_child(f.children@, k as int) == Some(f.children@[k - 1]));
                return node_string(source, &f.children[k - 1]);
            }
            k = k - 1;
        }
        None
    } else {
        node_string(source, f)
    }
}

/// Whether `edges` holds an edge from `from` to `to` of kind `kind`.
fn has_edge(edges: &Vec<Edge>, from: &str, to: &str, kind: EdgeKind) -> (b: bool)
    ensures
        b == exists|j: int|
            0 <= j < edges@.len() && edge_models(edges@)[j].0 == from@ && edge_models(edges@)[j].1
                == to@ && edge_models(edges@)[j].2 == kind,
{
    let mut i: usize = 0;
    while i < edges.len()
        invariant
            i <= edges.len(),
            forall|j: int|
                0 <= j < i ==> !(edge_models(edges@)[j].0 == from@ && edge_models(edges@)[j].1
                    == to@ && edge_models(edges@)[j].2 == kind),
        decreases edges.len() - i,
    {
        let e = &edges[i];
        if same_text(e.from_id.as_str(), from) && same_text(e.to_id.as_str(), to) && e.kind == kind {
            assert(edge_models(edges@)[i as int].0 == from@);
            return true;
        }
        i = i + 1;
    }
    false
}

/// The calls from `caller` in the subtree of `node` that lie within lines
/// `ls..=le`, added to `edges` unless already there.
fn find_calls_in_range(
    source: &str,
    node: &SyntaxNode,
    ls: usize,
    le: usize,
    caller: &str,
    ss: &Vec<Symbol>,
    file: &str,
    edges: &mut Vec<Edge>,
)
    requires
        tree_rows_fit(*node),
    ensures
        edge_models(final(edges)@) == add_edges(
            edge_models(old(edges)@),
            calls_in(source@, *node, ls as int, le as int, caller@, ss@),
        ),
        kept_and_from_file(old(edges)@, final(edges)@, file@),
    decreases node,
{
    let ghost start = edge_models(edges@);
    let ghost e0 = edges@;
    proof {
        assert(e0.subrange(e0.len() as int, e0.len() as int) =~= seq![]);
    }
    if node.end_row + 1 < ls || node.start_row + 1 > le {
        return;
    }
    let ghost here = call_here(source@, *node, caller@, ss@);
    if is_call_kind_exec(node.kind.as_str()) {
        match callee_name_exec(source, node) {
            Some(c) => match lookup_index(ss, c.as_str(), true) {
                Some(k) => {
                    if !same_text(ss[k].id.as_str(), caller) {
                        assert(here =~= seq![(caller@, ss@[k as int].id@, EdgeKind::Calls, node.start_row + 1)]);
                        assert(here.drop_last() =~= seq![]);
                        if !has_edge(edges, caller, ss[k].id.as_str(), EdgeKind::Calls) {
                            let e = Edge {
                                from_id: caller.to_owned(),
                                to_id: ss[k].id.clone(),
                                kind: EdgeKind::Calls,
                                file: file.to_owned(),
                                line: Some(node.start_row + 1),
                                confidence_percent: 100,
                            };
                            edges.push(e);
                            proof {
                                lemma_kept_push(e0, e0, e, file@);
                            }
                            assert(edge_models(edges@) =~= start.push(edge_model(e)));
                            assert(add_edges(start, here) == add_edge(add_edges(start, seq![]), here.last()));
                        } else {
                            assert(edge_models(edges@) == start);
                            assert(add_edges(start, here) == add_edge(add_edges(start, seq![]), here.last()));
                        }
                    } else {
                        assert(here =~= seq![]);
                    }
                },
                None => {
                    assert(here =~= seq![]);
                },
            },
            None => {
                assert(here =~= seq![]);
            },
        }
    } else {
        assert(here =~= seq![]);
    }
    assert(edge_models(edges@) == add_edges(start, here));
    let mut i: usize = 0;
    while i < node.children.len()
        invariant
            i <= node.children.len(),
            tree_rows_fit(*node),
            kept_and_from_file(e0, edges@, file@),
            edge_models(edges@) == add_edges(
                start,
                here + calls_in_forest(
                    source@,
                    node.children@.subrange(0, i as int),
                    ls as int,
                    le as int,
                    caller@,
                    ss@,
                ),
            ),
        decreases node.children.len() - i,
    {
        proof {
            lemma_forest_rows_fit(node.children@, i as int);
            let sub = node.children@.subrange(0, i + 1);
            assert(sub.drop_last() =~= node.children@.subrange(0, i as int));
            assert(sub.last() == node.children@[i as int]);
            let before = calls_in_forest(
                source@,
                node.children@.subrange(0, i as int),
                ls as int,
                le as int,
                caller@,
                ss@,
            );
            let next = calls_in(source@, node.children@[i as int], ls as int, le as int, caller@, ss@);
            lemma_add_edges_append(start, here + before, next);
            assert(here + before + next =~= here + (before + next));
        }
        let ghost mid = edges@;
        find_calls_in_range(source, &node.children[i], ls, le, caller, ss, file, edges);
        proof {
            lemma_kept_trans(e0, mid, edges@, file@);
        }
        i = i + 1;
    }
    assert(node.children@.subrange(0, node.children.len() as int) =~= node.children@);
}

fn is_call_kind_exec(kind: &str) -> (b: bool)
    ensures
        b == is_call_kind(kind@),
{
    same_text(kind, "call_expression") || same_text(kind, "call")
}

/// The call edges of a file: for each function and method, the calls of
/// known callables within its lines, each caller–callee pair once.
pub fn extract_call_edges(
    source: &str,
    root: &SyntaxNode,
    symbols: &Vec<Symbol>,
    file: &str,
    edges: &mut Vec<Edge>,
)
    requires
        tree_rows_fit(*root),
    ensures
        edge_models(final(edges)@) == add_edges(
            edge_models(old(edges)@),
            calls_of_symbols(source@, *root, symbols@, symbols.len() as int),
        ),
        kept_and_from_file(old(edges)@, final(edges)@, file@),
{
    let ghost start = edge_models(edges@);
    let ghost e0 = edges@;
    assert(e0.subrange(e0.len() as int, e0.len() as int) =~= seq![]);
    let mut k: usize = 0;
    while k < symbols.len()
        invariant
            k <= symbols.len(),
            tree_rows_fit(*root),
            kept_and_from_file(e0, edges@, file@),
            edge_models(edges@) == add_edges(start, calls_of_symbols(source@, *root, symbols@, k as int)),
        decreases symbols.len() - k,
    {
        let s = &symbols[k];
        let ghost before = calls_of_symbols(source@, *root, symbols@, k as int);
        if makes_calls_exec(s.kind) {
            proof {
                lemma_add_edges_append(
                    start,
                    before,
                    calls_in(source@, *root, s.line_start as int, s.line_end as int, s.id@, symbols@),
                );
            }
            let ghost mid = edges@;
            find_calls_in_range(source, root, s.line_start, s.line_end, s.id.as_str(), symbols, file, edges);
            proof {
                lemma_kept_trans(e0, mid, edges@, file@);
            }
        } else {
            assert(before + seq![] =~= before);
        }
        k = k + 1;
    }
}

// ── Inheritance ───────────────────────────────────────────────────────────

/// Appends the edges that node `n` itself declares.
fn inheritance_here(
    source: &str,
    n: &SyntaxNode,
    language: &str,
    ss: &Vec<Symbol>,
    file: &str,
    edges: &mut Vec<Edge>,
)
    requires
        n.start_row < usize::MAX,
    ensures
        edge_models(final(edges)@) == edge_models(old(edges)@) + inherit_here(source@, *n, language@, ss@),
        kept_and_from_file(old(edges)@, final(edges)@, file@),
{
    let ghost start = edge_models(edges@);
    let ghost e0 = edges@;
    assert(e0.subrange(e0.len() as int, e0.len() as int) =~= seq![]);
    let ghost here = inherit_here(source@, *n, language@, ss@);
    let line = n.start_row + 1;
    proof {
        reveal_strlit("superclasses");
        reveal_strlit("name");
        reveal_strlit("trait");
        reveal_strlit("type");
    }
    if same_text(language, "python") && same_text(n.kind.as_str(), "class_definition") {
        let bi = match crate::parser::docs::field_child_index(n, "superclasses") {
            Some(bi) => bi,
            None => {
                assert(here =~= seq![]);
                assert(edge_models(edges@) =~= start + here);
                return;
            },
        };
        let cn = match crate::parser::docs::field_child_index(n, "name") {
            Some(ni) => node_string(source, &n.children[ni]),
            None => None,
        };
        let cn = match cn {
            Some(cn) => cn,
            None => {
                assert(here =~= seq![]);
                assert(edge_models(edges@) =~= start + here);
                return;
            },
        };
        let ci = match lookup_index(ss, cn.as_str(), false) {
            Some(ci) => ci,
            None => {
                assert(here =~= seq![]);
                assert(edge_models(edges@) =~= start + here);
                return;
            },
        };
        let bases = &n.children[bi];
        let ghost cid = ss@[ci as int].id@;
        assert(here == base_edges(source@, bases.children@, cid, ss@, line as int));
        let mut j: usize = 0;
        while j < bases.children.len()
            invariant
                j <= bases.children.len(),
                ci < ss.len(),
                cid == ss@[ci as int].id@,
                kept_and_from_file(e0, edges@, file@),
                edge_models(edges@) == start + base_edges(
                    source@,
                    bases.children@.subrange(0, j as int),
                    cid,
                    ss@,
                    line as int,
                ),
            decreases bases.children.len() - j,
        {
            let ghost sub = bases.children@.subrange(0, j + 1);
            let ghost prev = edge_models(edges@);
            assert(sub.drop_last() =~= bases.children@.subrange(0, j as int));
            assert(sub.last() == bases.children@[j as int]);
            let c = &bases.children[j];
            let mut added = false;
            if same_text(c.kind.as_str(), "identifier") {
                match node_string(source, c) {
                    Some(b) => match lookup_index(ss, b.as_str(), false) {
                        Some(bj) => {
                            let e = Edge {
                                from_id: ss[ci].id.clone(),
                                to_id: ss[bj].id.clone(),
                                kind: EdgeKind::Inherits,
                                file: file.to_owned(),
                                line: Some(line),
                                confidence_percent: 100,
                            };
                            proof {
                                lemma_kept_push(e0, edges@, e, file@);
                            }
                            edges.push(e);
                            added = true;
                            assert(edge_models(edges@) =~= prev.push(edge_model(e)));
                        },
                        None => {},
                    },
                    None => {},
                }
            }
            if !added {
                assert(edge_models(edges@) =~= prev);
            }
            assert(edge_models(edges@) =~= start + base_edges(source@, sub, cid, ss@, line as int));
            j = j + 1;
        }
        assert(bases.children@.subrange(0, bases.children.len() as int) =~= bases.children@);
    } else if same_text(language, "rust") && same_text(n.kind.as_str(), "impl_item") {
        let ti = crate::parser::docs::field_child_index(n, "trait");
        let yi = crate::parser::docs::field_child_index(n, "type");
        if let (Some(ti), Some(yi)) = (ti, yi) {
            let tn = node_string(source, &n.children[ti]);
            let ty = node_string(source, &n.children[yi]);
            if let (Some(tn), Some(ty)) = (tn, ty) {
                let a = lookup_index(ss, ty.as_str(), false);
                let b = lookup_index(ss, tn.as_str(), false);
                if let (Some(a), Some(b)) = (a, b) {
                    let e = Edge {
                        from_id: ss[a].id.clone(),
                        to_id: ss[b].id.clone(),
                        kind: EdgeKind::Implements,
                        file: file.to_owned(),
                        line: Some(line),
                        confidence_percent: 100,
                    };
                    proof {
                        lemma_kept_push(e0, edges@, e, file@);
                    }
                    edges.push(e);
                    assert(edge_models(edges@) =~= start + here);
                    return;
                }
            }
        }
        assert(here =~= seq![]);
        assert(edge_models(edges@) =~= start + here);
    } else {
        assert(here =~= seq![]);
        assert(edge_models(edges@) =~= start + here);
    }
}

/// Appends the inheritance edges of the subtree of `node`, in document
/// order.
fn walk_for_inheritance(
    source: &str,
    node: &SyntaxNode,
    language: &str,
    ss: &Vec<Symbol>,
    file: &str,
    edges: &mut Vec<Edge>,
)
    requires
        tree_rows_fit(*node),
    ensures
        edge_models(final(edges)@) == edge_models(old(edges)@) + inherit_in(source@, *node, language@, ss@),
        kept_and_from_file(old(edges)@, final(edges)@, file@),
    decreases node,
{
    let ghost start = edge_models(edges@);
    let ghost e0 = edges@;
    inheritance_here(source, node, language, ss, file, edges);
    let ghost here = inherit_here(source@, *node, language@, ss@);
    let mut i: usize = 0;
    while i < node.children.len()
        invariant
            i <= node.children.len(),
            tree_rows_fit(*node),
            kept_and_from_file(e0, edges@, file@),
            edge_models(edges@) == start + here + inherit_in_forest(
                source@,
                node.children@.subrange(0, i as int),
                language@,
                ss@,
            ),
        decreases node.children.len() - i,
    {
        proof {
            lemma_forest_rows_fit(node.children@, i as int);
            let sub = node.children@.subrange(0, i + 1);
            assert(sub.drop_last() =~= node.children@.subrange(0, i as int));
            assert(sub.last() == node.children@[i as int]);
        }
        let ghost prev = edge_models(edges@);
        let ghost mid = edges@;
        walk_for_inheritance(source, &node.children[i], language, ss, file, edges);
        proof {
            lemma_kept_trans(e0, mid, edges@, file@);
            let before = inherit_in_forest(source@, node.children@.subrange(0, i as int), language@, ss@);
            let next = inherit_in(source@, node.children@[i as int], language@, ss@);
            assert(start + here + (before + next) =~= start + here + before + next);
        }
        i = i + 1;
    }
    assert(node.children@.subrange(0, node.children.len() as int) =~= node.children@);
    assert(start + here + inherit_in_forest(source@, node.children@, language@, ss@) =~= start
        + inherit_in(source@, *node, language@, ss@));
}

/// The inheritance and implementation edges of a file, appended to
/// `edges` in document order.
pub fn extract_inheritance_edges(
    root: &SyntaxNode,
    source: &str,
    symbols: &Vec<Symbol>,
    file: &str,
    language: &str,
    edges: &mut Vec<Edge>,
)
    requires
        tree_rows_fit(*root),
    ensures
        edge_models(final(edges)@) == edge_models(old(edges)@) + inherit_in(source@, *root, language@, symbols@),
        kept_and_from_file(old(edges)@, final(edges)@, file@),
{
    walk_for_inheritance(source, root, language, symbols, file, edges);
}

// ── Checks ────────────────────────────────────────────────────────────────

/// Whether every node of the tree has `start_row <= end_row < usize::MAX`.
pub fn tree_rows_ok(n: &SyntaxNode) -> (b: bool)
    ensures
        b == tree_rows_fit(*n),
    decreases n,
{
    if !(n.start_row <= n.end_row && n.end_row < usize::MAX) {
        return false;
    }
    let mut i: usize = 0;
    while i < n.children.len()
        invariant
            i <= n.children.len(),
            forest_rows_fit(n.children@.subrange(0, i as int)),
        decreases n.children.len() - i,
    {
        let ghost sub = n.children@.subrange(0, i + 1);
        assert(sub.drop_last() =~= n.children@.subrange(0, i as int));
        assert(sub.last() == n.children@[i as int]);
        if !tree_rows_ok(&n.children[i]) {
            proof {
                if forest_rows_fit(n.children@) {
                    lemma_forest_rows_fit(n.children@, i as int);
                }
            }
            return false;
        }
        i = i + 1;
    }
    assert(n.children@.subrange(0, n.children.len() as int) =~= n.children@);
    true
}

/// Whether every capture node of every match has `start_row <= end_row <
/// usize::MAX`.
pub fn captures_rows_ok(ms: &Vec<Vec<crate::parser::syntax::Capture>>) -> (b: bool)
    ensures
        b == crate::parser::extract::captures_rows_fit(ms@),
{
    let mut m: usize = 0;
    while m < ms.len()
        invariant
            m <= ms.len(),
            forall|a: int, c: int|
                0 <= a < m && 0 <= c < ms@[a]@.len() ==> {
                    let n = (#[trigger] ms@[a]@[c]).node;
                    n.start_row <= n.end_row < usize::MAX
                },
        decreases ms.len() - m,
    {
        let caps = &ms[m];
        let mut c: usize = 0;
        while c < caps.len()
            invariant
                m < ms.len(),
                caps == ms@[m as int],
                c <= caps.len(),
                forall|a: int, k: int|
                    0 <= a < m && 0 <= k < ms@[a]@.len() ==> {
                        let n = (#[trigger] ms@[a]@[k]).node;
                        n.start_row <= n.end_row < usize::MAX
                    },
                forall|k: int|
                    0 <= k < c ==> {
                        let n = (#[trigger] caps@[k]).node;
                        n.start_row <= n.end_row < usize::MAX
                    },
            decreases caps.len() - c,
        {
            let n = &caps[c].node;
            if !(n.start_row <= n.end_row && n.end_row < usize::MAX) {
                assert(ms@[m as int]@[c as int].node == *n);
                return false;
            }
            c = c + 1;
        }
        m = m + 1;
    }
    true
}

} // verus!

//! The code graph's rows and the decisions of its store: when a file needs
//! resyncing, what its full-text entry holds, which files are gone, and the
//! depth-limited walks over the call graph.
use vstd::prelude::*;
use crate::hashing::{sha256_hex, sha256_hex_of};
use crate::parser::languages::same_text;
use crate::parser::treesitter::{opt_view, Symbol, SymbolKind};
use crate::text::{push_char, push_str, utf8_len};

verus! {

// ── Rows ──────────────────────────────────────────────────────────────────

/// A symbol as the store keeps it; `scope_chain` is a JSON array.
#[derive(Debug, Clone)]
pub struct SymbolRow {
    pub id: String,
    pub canonical_id: String,
    pub name: String,
    pub kind: String,
    pub file: String,
    pub line_start: usize,
    pub line_end: usize,
    pub signature: String,
    pub docstring: Option<String>,
    pub body_hash: String,
    pub full_hash: String,
    pub language: String,
    pub scope_chain: String,
    pub parent_id: Option<String>,
}

/// Counts of what the store holds.
#[derive(Debug, Clone)]
pub struct StoreStats {
    pub symbol_count: usize,
    pub edge_count: usize,
    pub file_count: usize,
}

// ── Syncing a file ────────────────────────────────────────────────────────

/// The full hashes of the symbols, one after the other.
pub open spec fn full_hashes(ss: Seq<Symbol>) -> Seq<char>
    decreases ss.len(),
{
    if ss.len() == 0 {
        seq![]
    } else {
        full_hashes(ss.drop_last()) + ss.last().full_hash@
    }
}

/// The content hash of a parsed file: the hash of its symbols' full hashes
/// in order. A file whose hash is unchanged is not written again.
pub fn compute_content_hash(symbols: &Vec<Symbol>) -> (h: String)
    ensures
        h@ == sha256_hex_of(full_hashes(symbols@)),
{
    let mut all = String::new();
    let mut i: usize = 0;
    while i < symbols.len()
        invariant
            i <= symbols.len(),
            all@ == full_hashes(symbols@.subrange(0, i as int)),
        decreases symbols.len() - i,
    {
        proof {
            assert(symbols@.subrange(0, i + 1).drop_last() =~= symbols@.subrange(0, i as int));
        }
        push_str(&mut all, symbols[i].full_hash.as_str());
        i = i + 1;
    }
    assert(symbols@.subrange(0, symbols.len() as int) =~= symbols@);
    sha256_hex(all.as_str())
}

/// Two parses whose symbols carry the same full hashes, in order, have the
/// same content hash: syncing the second after the first writes nothing.
pub proof fn law_same_content_same_hash(a: Seq<Symbol>, b: Seq<Symbol>)
    requires
        a.len() == b.len(),
        forall|i: int| 0 <= i < a.len() ==> a[i].full_hash@ == b[i].full_hash@,
    ensures
        sha256_hex_of(full_hashes(a)) == sha256_hex_of(full_hashes(b)),
{
    lemma_full_hashes_eq(a, b);
}

proof fn lemma_full_hashes_eq(a: Seq<Symbol>, b: Seq<Symbol>)
    requires
        a.len() == b.len(),
        forall|i: int| 0 <= i < a.len() ==> a[i].full_hash@ == b[i].full_hash@,
    ensures
        full_hashes(a) == full_hashes(b),
    decreases a.len(),
{
    if a.len() > 0 {
        assert forall|i: int| 0 <= i < a.drop_last().len() implies a.drop_last()[i].full_hash@
            == b.drop_last()[i].full_hash@ by {
            assert(a.drop_last()[i] == a[i]);
            assert(b.drop_last()[i] == b[i]);
        }
        lemma_full_hashes_eq(a.drop_last(), b.drop_last());
        assert(a.last() == a[a.len() - 1]);
        assert(b.last() == b[b.len() - 1]);
    }
}

/// Whether a file must be written: its stored hash differs from the new one.
pub fn needs_sync(stored: Option<&str>, content_hash: &str) -> (b: bool)
    ensures
        b <==> !(stored matches Some(s) && s@ == content_hash@),
{
    match stored {
        Some(s) => !same_text(s, content_hash),
        None => true,
    }
}

/// Kinds whose value is worth searching for.
pub open spec fn is_value_kind(k: SymbolKind) -> bool {
    k == SymbolKind::Constant || k == SymbolKind::Variable || k == SymbolKind::TypeAlias
}

/// The text indexed as a symbol's docstring for full-text search: the
/// docstring, followed by a space and the body when the symbol is a value
/// or its body is under 200 bytes.
pub open spec fn fts_docstring_of(sym: Symbol) -> Seq<char> {
    let doc = match opt_view(sym.docstring) {
        Some(d) => d,
        None => seq![],
    };
    if is_value_kind(sym.kind) || utf8_len(sym.body@) < 200 {
        doc + " "@ + sym.body@
    } else {
        doc
    }
}

/// The full-text docstring of a symbol.
pub fn fts_docstring(sym: &Symbol) -> (r: String)
    ensures
        r@ == fts_docstring_of(*sym),
{
    let mut out = String::new();
    match &sym.docstring {
        Some(d) => push_str(&mut out, d.as_str()),
        None => {},
    }
    let value = match sym.kind {
        SymbolKind::Constant | SymbolKind::Variable | SymbolKind::TypeAlias => true,
        _ => false,
    };
    let short = sym.body.as_str().len() < 200;
    proof {
        reveal_strlit(" ");
        assert(out@ == match opt_view(sym.docstring) {
            Some(d) => d,
            None => seq![],
        });
    }
    if value || short {
        push_char(&mut out, ' ');
        push_str(&mut out, sym.body.as_str());
    }
    out
}

/// The stored files that no longer exist, in stored order.
pub open spec fn removed_files(stored: Seq<Seq<char>>, existing: Seq<Seq<char>>) -> Seq<Seq<char>> {
    stored.filter(|f: Seq<char>| !existing.contains(f))
}

/// The stored files to drop from the store.
pub fn files_to_remove(stored: &Vec<String>, existing: &Vec<String>) -> (r: Vec<String>)
    ensures
        r@.map_values(|s: String| s@) == removed_files(
            stored@.map_values(|s: String| s@),
            existing@.map_values(|s: String| s@),
        ),
{
    let ghost st = stored@.map_values(|s: String| s@);
    let ghost ex = existing@.map_values(|s: String| s@);
    let mut r: Vec<String> = Vec::new();
    let mut i: usize = 0;
    while i < stored.len()
        invariant
            i <= stored.len(),
            st == stored@.map_values(|s: String| s@),
            ex == existing@.map_values(|s: String| s@),
            r@.map_values(|s: String| s@) == st.subrange(0, i as int).filter(
                |f: Seq<char>| !ex.contains(f),
            ),
        decreases stored.len() - i,
    {
        let mut found = false;
        let mut j: usize = 0;
        while j < existing.len()
            invariant
                j <= existing.len(),
                i < stored.len(),
                ex == existing@.map_values(|s: String| s@),
                found <==> exists|k: int| 0 <= k < j && ex[k] == stored@[i as int]@,
            decreases existing.len() - j,
        {
            assert(ex[j as int] == existing@[j as int]@);
            if same_text(existing[j].as_str(), stored[i].as_str()) {
                found = true;
            }
            j = j + 1;
        }
        proof {
            let sub = st.subrange(0, i + 1);
            assert(sub.drop_last() =~= st.subrange(0, i as int));
            assert(sub.last() == stored@[i as int]@);
            if found {
                let k = choose|k: int| 0 <= k < existing.len() && ex[k] == stored@[i as int]@;
                assert(ex.contains(stored@[i as int]@));
            } else {
                assert(!ex.contains(stored@[i as int]@));
            }
        }
        let ghost before = r@.map_values(|s: String| s@);
        if !found {
            r.push(stored[i].clone());
            assert(r@.map_values(|s: String| s@) =~= before.push(stored@[i as int]@));
        } else {
            assert(r@.map_values(|s: String| s@) =~= before);
        }
        proof {
            reveal(Seq::filter);
            let sub = st.subrange(0, i + 1);
            assert(sub.filter(|f: Seq<char>| !ex.contains(f)) == if !ex.contains(sub.last()) {
                sub.drop_last().filter(|f: Seq<char>| !ex.contains(f)).push(sub.last())
            } else {
                sub.drop_last().filter(|f: Seq<char>| !ex.contains(f))
            });
        }
        i = i + 1;
    }
    assert(st.subrange(0, stored.len() as int) =~= st);
    r
}

// ── Walks over the call graph ─────────────────────────────────────────────

/// `v` is a neighbour of `u` in the graph `adj`.
pub open spec fn edge(adj: Seq<Vec<usize>>, u: int, v: int) -> bool {
    0 <= u < adj.len() && 0 <= v < adj.len() && adj[u]@.contains(v as usize)
}

/// `v` is within `k` steps of `start`.
pub open spec fn reach(adj: Seq<Vec<usize>>, start: int, v: int, k: nat) -> bool
    decreases k,
{
    if k == 0 {
        v == start
    } else {
        reach(adj, start, v, (k - 1) as nat) || exists|u: int|
            reach(adj, start, u, (k - 1) as nat) && #[trigger] edge(adj, u, v)
    }
}

/// `v` is exactly `k` steps from `start`: within `k` steps, and not within
/// fewer.
pub open spec fn at_distance(adj: Seq<Vec<usize>>, start: int, v: int, k: nat) -> bool {
    reach(adj, start, v, k) && (k == 0 || !reach(adj, start, v, (k - 1) as nat))
}

/// `r` is the breadth-first walk from `start` to `depth`: every symbol at a
/// distance from one to `depth` once, with that distance, and nothing else.
pub open spec fn is_walk(r: Seq<(usize, usize)>, adj: Seq<Vec<usize>>, start: int, depth: nat) -> bool {
    &&& forall|q: int|
        0 <= q < r.len() ==> 1 <= (#[trigger] r[q]).1 <= depth && at_distance(adj, start, r[q].0 as int, r[q].1 as nat)
    &&& forall|v: int, k: nat|
        0 <= v < adj.len() && 1 <= k <= depth && #[trigger] at_distance(adj, start, v, k) ==> exists|q: int|
            0 <= q < r.len() && #[trigger] r[q] == (v as usize, k as usize)
    &&& forall|a: int, b: int| 0 <= a < b < r.len() ==> (#[trigger] r[a]).0 != (#[trigger] r[b]).0
}

proof fn lemma_reach_mono(adj: Seq<Vec<usize>>, start: int, v: int, j: nat, k: nat)
    requires
        j <= k,
        reach(adj, start, v, j),
    ensures
        reach(adj, start, v, k),
    decreases k - j,
{
    if j < k {
        lemma_reach_mono(adj, start, v, j, (k - 1) as nat);
    }
}

/// A node first reached at step `k` has a predecessor first reached at
/// step `k - 1`.
proof fn lemma_predecessor(adj: Seq<Vec<usize>>, start: int, v: int, k: nat)
    requires
        k >= 1,
        at_distance(adj, start, v, k),
    ensures
        exists|u: int| at_distance(adj, start, u, (k - 1) as nat) && #[trigger] edge(adj, u, v),
{
    let u = choose|u: int| reach(adj, start, u, (k - 1) as nat) && #[trigger] edge(adj, u, v);
    if k >= 2 && reach(adj, start, u, (k - 2) as nat) {
        assert(reach(adj, start, v, (k - 1) as nat));
    }
    assert(at_distance(adj, start, u, (k - 1) as nat));
}

/// When nothing is at distance `d`, nothing is farther either.
proof fn lemma_nothing_beyond(adj: Seq<Vec<usize>>, start: int, d: nat, v: int, k: nat)
    requires
        forall|u: int| !#[trigger] at_distance(adj, start, u, d),
        k >= d,
    ensures
        !at_distance(adj, start, v, k),
    decreases k - d,
{
    if k > d && at_distance(adj, start, v, k) {
        lemma_predecessor(adj, start, v, k);
        let u = choose|u: int| at_distance(adj, start, u, (k - 1) as nat) && #[trigger] edge(adj, u, v);
        lemma_nothing_beyond(adj, start, d, u, (k - 1) as nat);
    }
}

/// Some of the first `p` nodes of `level` has `v` as a neighbour.
pub open spec fn hit(adj: Seq<Vec<usize>>, level: Seq<usize>, p: int, v: int) -> bool {
    exists|j: int| 0 <= j < p && #[trigger] edge(adj, level[j] as int, v)
}

/// The nodes within `d + 1` steps are those within `d` steps and the
/// neighbours of the nodes at distance `d`.
proof fn lemma_next_level(adj: Seq<Vec<usize>>, start: int, level: Seq<usize>, d: nat, v: int)
    requires
        adj.len() <= usize::MAX,
        forall|p: int| 0 <= p < level.len() ==> #[trigger] at_distance(adj, start, level[p] as int, d),
        forall|u: int| 0 <= u < adj.len() && #[trigger] at_distance(adj, start, u, d) ==> level.contains(u as usize),
    ensures
        reach(adj, start, v, d + 1) <==> (reach(adj, start, v, d) || hit(adj, level, level.len() as int, v)),
{
    if hit(adj, level, level.len() as int, v) {
        let j = choose|j: int| 0 <= j < level.len() && #[trigger] edge(adj, level[j] as int, v);
        assert(at_distance(adj, start, level[j] as int, d));
        assert(reach(adj, start, level[j] as int, ((d + 1) - 1) as nat));
    }
    if reach(adj, start, v, d + 1) && !reach(adj, start, v, d) {
        let u = choose|u: int| reach(adj, start, u, d) && #[trigger] edge(adj, u, v);
        if d >= 1 && reach(adj, start, u, (d - 1) as nat) {
            assert(reach(adj, start, v, d));
        } else {
            assert(at_distance(adj, start, u, d));
            assert(level.contains(u as usize));
            let j = choose|j: int| 0 <= j < level.len() && level[j] == u as usize;
            assert(edge(adj, level[j] as int, v));
        }
    }
}

/// The breadth-first walk from `start`: every node at a distance from one to
/// `depth`, once, with its distance (the fewest steps to it). A neighbour
/// number that names no node of `adj` is no edge.
pub fn walk_graph(adj: &Vec<Vec<usize>>, start: usize, depth: usize) -> (r: Vec<(usize, usize)>)
    requires
        start < adj.len(),
    ensures
        is_walk(r@, adj@, start as int, depth as nat),
{
    let n = adj.len();
    let ghost g = adj@;
    let mut seen: Vec<bool> = Vec::new();
    let mut i: usize = 0;
    while i < n
        invariant
            i <= n,
            seen@.len() == i,
            forall|v: int| 0 <= v < i ==> !seen@[v],
        decreases n - i,
    {
        seen.push(false);
        i = i + 1;
    }
    seen.set(start, true);
    let mut level: Vec<usize> = Vec::new();
    level.push(start);
    let mut out: Vec<(usize, usize)> = Vec::new();
    let mut d: usize = 0;
    proof {
        assert forall|v: int| 0 <= v < n implies (seen@[v] <==> reach(g, start as int, v, 0)) by {}
        assert forall|u: int| 0 <= u < n && #[trigger] at_distance(g, start as int, u, 0) implies level@.contains(
            u as usize,
        ) by {
            assert(level@[0] == start);
        }
    }
    while d < depth && level.len() > 0
        invariant
            g == adj@,
            n == adj.len(),
            start < n,
            d <= depth,
            seen@.len() == n,
            forall|v: int| 0 <= v < n ==> (seen@[v] <==> reach(g, start as int, v, d as nat)),
            forall|p: int|
                0 <= p < level.len() ==> (#[trigger] level@[p]) < n && at_distance(g, start as int, level@[p] as int, d as nat),
            forall|u: int| 0 <= u < n && #[trigger] at_distance(g, start as int, u, d as nat) ==> level@.contains(u as usize),
            forall|q: int|
                0 <= q < out.len() ==> 1 <= (#[trigger] out@[q]).1 <= d && out@[q].0 < n && at_distance(
                    g,
                    start as int,
                    out@[q].0 as int,
                    out@[q].1 as nat,
                ),
            forall|v: int, k: nat|
                0 <= v < n && 1 <= k <= d && #[trigger] at_distance(g, start as int, v, k) ==> exists|q: int|
                    0 <= q < out.len() && #[trigger] out@[q] == (v as usize, k as usize),
            forall|a: int, b: int| 0 <= a < b < out.len() ==> (#[trigger] out@[a]).0 != (#[trigger] out@[b]).0,
        decreases depth - d,
    {
        let ghost out0 = out@;
        let ghost seen0 = seen@;
        let mut next: Vec<usize> = Vec::new();
        let mut p: usize = 0;
        while p < level.len()
            invariant
                g == adj@,
                n == adj.len(),
                    d < depth,
                p <= level.len(),
                seen@.len() == n,
                forall|q: int| 0 <= q < level.len() ==> (#[trigger] level@[q]) < n,
                forall|v: int|
                    0 <= v < n ==> (seen@[v] <==> (reach(g, start as int, v, d as nat) || hit(g, level@, p as int, v))),
                forall|v: int| 0 <= v < n ==> (seen0[v] <==> reach(g, start as int, v, d as nat)),
                forall|j: int|
                    0 <= j < next.len() ==> (#[trigger] next@[j]) < n && !reach(g, start as int, next@[j] as int, d as nat)
                        && hit(g, level@, p as int, next@[j] as int),
                forall|v: int|
                    0 <= v < n && !reach(g, start as int, v, d as nat) && hit(g, level@, p as int, v) ==> next@.contains(
                        v as usize,
                    ),
                next@.no_duplicates(),
                out.len() == out0.len() + next.len(),
                forall|q: int| 0 <= q < out0.len() ==> out@[q] == out0[q],
                forall|j: int| 0 <= j < next.len() ==> out@[out0.len() + j] == (#[trigger] next@[j], (d + 1) as usize),
            decreases level.len() - p,
        {
            let u = level[p];
            let ghost row = adj@[u as int]@;
            let mut t: usize = 0;
            while t < adj[u].len()
                invariant
                    g == adj@,
                    n == adj.len(),
                            d < depth,
                    p < level.len(),
                    u == level@[p as int],
                    u < n,
                    row == adj@[u as int]@,
                    t <= row.len(),
                    seen@.len() == n,
                    forall|v: int|
                        0 <= v < n ==> (seen@[v] <==> (reach(g, start as int, v, d as nat) || hit(g, level@, p as int, v)
                            || row.subrange(0, t as int).contains(v as usize))),
                    forall|v: int| 0 <= v < n ==> (seen0[v] <==> reach(g, start as int, v, d as nat)),
                    forall|j: int|
                        0 <= j < next.len() ==> (#[trigger] next@[j]) < n && !reach(g, start as int, next@[j] as int, d as nat)
                            && (hit(g, level@, p as int, next@[j] as int) || row.subrange(0, t as int).contains(next@[j])),
                    forall|v: int|
                        0 <= v < n && !reach(g, start as int, v, d as nat) && (hit(g, level@, p as int, v)
                            || row.subrange(0, t as int).contains(v as usize)) ==> next@.contains(v as usize),
                    next@.no_duplicates(),
                    out.len() == out0.len() + next.len(),
                    forall|q: int| 0 <= q < out0.len() ==> out@[q] == out0[q],
                    forall|j: int| 0 <= j < next.len() ==> out@[out0.len() + j] == (#[trigger] next@[j], (d + 1) as usize),
                decreases row.len() - t,
            {
                let w = adj[u][t];
                proof {
                    let sub0 = row.subrange(0, t as int);
                    let sub1 = row.subrange(0, t + 1);
                    assert(sub1 =~= sub0.push(w));
                    assert forall|x: usize| sub1.contains(x) <==> (sub0.contains(x) || x == w) by {
                        if sub1.contains(x) && x != w {
                            let q = choose|q: int| 0 <= q < sub1.len() && #[trigger] sub1[q] == x;
                            assert(sub0[q] == x);
                        }
                        if sub0.contains(x) {
                            let q = choose|q: int| 0 <= q < sub0.len() && #[trigger] sub0[q] == x;
                            assert(sub1[q] == x);
                        }
                        if x == w {
                            assert(sub1[t as int] == x);
                        }
                    }
                }
                if w < n && !seen[w] {
                    let ghost next_before = next@;
                    let ghost out_before = out@;
                    seen.set(w, true);
                    next.push(w);
                    out.push((w, d + 1));
                    proof {
                        assert(!next_before.contains(w)) by {
                            if next_before.contains(w) {
                                let q = choose|q: int| 0 <= q < next_before.len() && next_before[q] == w;
                                assert(next@[q] == w);
                            }
                        }
                        assert forall|a: int, b: int| 0 <= a < next@.len() && 0 <= b < next@.len() && a != b implies #[trigger] next@[a]
                            != #[trigger] next@[b] by {
                            if a < next_before.len() && b < next_before.len() {
                                assert(next@[a] == next_before[a] && next@[b] == next_before[b]);
                            } else if a < next_before.len() {
                                assert(next@[a] == next_before[a]);
                            } else if b < next_before.len() {
                                assert(next@[b] == next_before[b]);
                            }
                        }
                        assert forall|j: int| 0 <= j < next.len() implies out@[out0.len() + j] == (#[trigger] next@[j], (d + 1) as usize) by {
                            if j < next_before.len() {
                                assert(next@[j] == next_before[j]);
                                assert(out@[out0.len() + j] == out_before[out0.len() + j]);
                            }
                        }
                        assert forall|v: int| 0 <= v < n && !reach(g, start as int, v, d as nat) && (hit(g, level@, p as int, v)
                            || row.subrange(0, t + 1).contains(v as usize)) implies next@.contains(v as usize) by {
                            if v as usize == w {
                                assert(next@[next@.len() - 1] == w);
                            } else {
                                assert(next_before.contains(v as usize));
                                let q = choose|q: int| 0 <= q < next_before.len() && next_before[q] == v as usize;
                                assert(next@[q] == v as usize);
                            }
                        }
                    }
                } else {
                    proof {
                        assert forall|v: int| 0 <= v < n && !reach(g, start as int, v, d as nat) && (hit(g, level@, p as int, v)
                            || row.subrange(0, t + 1).contains(v as usize)) implies next@.contains(v as usize) by {
                            if v as usize == w {
                                assert(seen@[v]);
                            }
                        }
                    }
                }
                t = t + 1;
            }
            proof {
                assert(row.subrange(0, row.len() as int) =~= row);
                assert forall|v: int| 0 <= v < n implies (hit(g, level@, p + 1, v) <==> (hit(g, level@, p as int, v)
                    || row.contains(v as usize))) by {
                    if hit(g, level@, p + 1, v) {
                        let j = choose|j: int| 0 <= j < p + 1 && #[trigger] edge(g, level@[j] as int, v);
                        if j < p {
                            assert(hit(g, level@, p as int, v));
                        }
                    }
                    if hit(g, level@, p as int, v) {
                        let j = choose|j: int| 0 <= j < p && #[trigger] edge(g, level@[j] as int, v);
                        assert(edge(g, level@[j] as int, v));
                    }
                    if row.contains(v as usize) {
                        assert(edge(g, level@[p as int] as int, v));
                    }
                }
            }
            p = p + 1;
        }
        proof {
            assert forall|v: int| 0 <= v < n implies (seen@[v] <==> reach(g, start as int, v, (d + 1) as nat)) by {
                lemma_next_level(g, start as int, level@, d as nat, v);
            }
            assert forall|j: int| 0 <= j < next.len() implies at_distance(g, start as int, next@[j] as int, (d + 1) as nat) by {
                lemma_next_level(g, start as int, level@, d as nat, next@[j] as int);
            }
            assert forall|v: int| 0 <= v < n && #[trigger] at_distance(g, start as int, v, (d + 1) as nat) implies next@.contains(
                v as usize,
            ) by {
                lemma_next_level(g, start as int, level@, d as nat, v);
            }
            assert forall|q: int| 0 <= q < out.len() implies 1 <= (#[trigger] out@[q]).1 <= d + 1 && out@[q].0 < n
                && at_distance(g, start as int, out@[q].0 as int, out@[q].1 as nat) by {
                if q < out0.len() {
                    assert(out@[q] == out0[q]);
                } else {
                    let j = q - out0.len();
                    assert(out@[out0.len() + j] == (next@[j], (d + 1) as usize));
                    lemma_next_level(g, start as int, level@, d as nat, next@[j] as int);
                }
            }
            assert forall|v: int, k: nat| 0 <= v < n && 1 <= k <= d + 1 && #[trigger] at_distance(g, start as int, v, k) implies exists|q: int|
                0 <= q < out.len() && #[trigger] out@[q] == (v as usize, k as usize) by {
                if k <= d {
                    let q = choose|q: int| 0 <= q < out0.len() && #[trigger] out0[q] == (v as usize, k as usize);
                    assert(out@[q] == out0[q]);
                } else {
                    lemma_next_level(g, start as int, level@, d as nat, v);
                    let j = choose|j: int| 0 <= j < next@.len() && next@[j] == v as usize;
                    assert(out@[out0.len() + j] == (next@[j], (d + 1) as usize));
                }
            }
            assert forall|a: int, b: int| 0 <= a < b < out.len() implies (#[trigger] out@[a]).0 != (#[trigger] out@[b]).0 by {
                if b < out0.len() {
                    assert(out@[a] == out0[a] && out@[b] == out0[b]);
                } else if a < out0.len() {
                    let j = b - out0.len();
                    assert(out@[out0.len() + j] == (next@[j], (d + 1) as usize));
                    assert(out@[a] == out0[a]);
                    lemma_reach_mono(g, start as int, out0[a].0 as int, out0[a].1 as nat, d as nat);
                } else {
                    let ja = a - out0.len();
                    let jb = b - out0.len();
                    assert(out@[out0.len() + ja] == (next@[ja], (d + 1) as usize));
                    assert(out@[out0.len() + jb] == (next@[jb], (d + 1) as usize));
                }
            }
        }
        let ghost d0 = d;
        level = next;
        d = d + 1;
        proof {
            assert forall|u: int| 0 <= u < n && #[trigger] at_distance(g, start as int, u, d as nat) implies level@.contains(
                u as usize,
            ) by {
                assert(at_distance(g, start as int, u, (d0 + 1) as nat));
            }
        }
    }
    proof {
        if d < depth {
            assert(level.len() == 0);
            assert forall|u: int| !#[trigger] at_distance(g, start as int, u, d as nat) by {
                if at_distance(g, start as int, u, d as nat) {
                    lemma_reached_in_graph(g, start as int, u, d as nat);
                    assert(level@.contains(u as usize));
                }
            }
            assert forall|v: int, k: nat| 0 <= v < n && 1 <= k <= depth && #[trigger] at_distance(g, start as int, v, k) implies exists|q: int|
                0 <= q < out.len() && #[trigger] out@[q] == (v as usize, k as usize) by {
                if k > d {
                    lemma_nothing_beyond(g, start as int, d as nat, v, k);
                }
            }
        }
    }
    out
}

/// A deeper walk finds everything a shallower one does, at the same
/// distance; and what it finds beyond lies farther than the shallower depth.
pub proof fn law_walk_deepens(adj: Seq<Vec<usize>>, start: int, r1: Seq<(usize, usize)>, d1: nat, r2: Seq<(usize, usize)>, d2: nat)
    requires
        0 <= start < adj.len(),
        d1 <= d2,
        is_walk(r1, adj, start, d1),
        is_walk(r2, adj, start, d2),
    ensures
        forall|q: int| 0 <= q < r1.len() ==> r2.contains(#[trigger] r1[q]),
        forall|q: int| 0 <= q < r2.len() && !r1.contains(#[trigger] r2[q]) ==> r2[q].1 > d1,
{
    assert forall|q: int| 0 <= q < r1.len() implies r2.contains(#[trigger] r1[q]) by {
        let (v, k) = r1[q];
        assert(at_distance(adj, start, v as int, k as nat));
        lemma_reached_in_graph(adj, start, v as int, k as nat);
        let p = choose|p: int| 0 <= p < r2.len() && #[trigger] r2[p] == (v, k);
        assert(r2[p] == r1[q]);
    }
    assert forall|q: int| 0 <= q < r2.len() && !r1.contains(#[trigger] r2[q]) implies r2[q].1 > d1 by {
        let (v, k) = r2[q];
        if k <= d1 {
            assert(at_distance(adj, start, v as int, k as nat));
            lemma_reached_in_graph(adj, start, v as int, k as nat);
            let p = choose|p: int| 0 <= p < r1.len() && #[trigger] r1[p] == (v, k);
            assert(r1[p] == r2[q]);
        }
    }
}

/// Whatever is reached from a node of the graph is a node of the graph.
proof fn lemma_reached_in_graph(adj: Seq<Vec<usize>>, start: int, v: int, k: nat)
    requires
        0 <= start < adj.len(),
        reach(adj, start, v, k),
    ensures
        0 <= v < adj.len(),
    decreases k,
{
    if k > 0 && !reach(adj, start, v, (k - 1) as nat) {
        let u = choose|u: int| reach(adj, start, u, (k - 1) as nat) && #[trigger] edge(adj, u, v);
    } else if k > 0 {
        lemma_reached_in_graph(adj, start, v, (k - 1) as nat);
    }
}

} // verus!

//! Communities of the call graph, by local modularity moves (Louvain's first
//! phase): every symbol starts alone; in turn, each moves to the neighbouring
//! community that raises the modularity most, sweep after sweep, until a
//! sweep moves nothing or `MAX_SWEEPS` sweeps have run.
//!
//! The gain of moving symbol `i` from community `c` to `t` is
//! `ΔQ = (k_t − k_c)/m − k_i·(Σ_t − Σ_c)/(2m²)`, where `k_x` counts `i`'s
//! links into `x`, `Σ_x` sums the degrees in `x` (without `i`), `k_i` is
//! `i`'s degree and `2m` the number `T` of caller links counted. The gain is
//! compared here as `2m²·ΔQ = T·(k_t − k_c) − k_i·(Σ_t − Σ_c)`, an integer
//! with the same sign and the same order, so every comparison is exact.
use vstd::prelude::*;
use crate::attention::{all_kept, is_top_ranked, rank_all};
use crate::parser::languages::same_text;

verus! {

// ── The graph ─────────────────────────────────────────────────────────────

/// The sizes below which gains fit 128-bit integers: no graph this large
/// fits in memory.
pub open spec fn graph_bound() -> int {
    0x100_0000_0000
}

/// The undirected call graph: the neighbours of each symbol, and the number
/// of caller links counted while building it.
#[derive(Debug)]
pub struct CallGraph {
    pub adj: Vec<Vec<usize>>,
    pub links: usize,
}

/// The neighbours of symbol `i`.
pub open spec fn nbrs(g: CallGraph, i: int) -> Seq<usize> {
    g.adj@[i]@
}

/// The degree of symbol `i`: its number of neighbours.
pub open spec fn degree(g: CallGraph, i: int) -> int {
    g.adj@[i]@.len() as int
}

/// The graph's sizes are within `graph_bound` and its neighbours are
/// symbols of the graph.
pub open spec fn graph_ok(g: CallGraph) -> bool {
    &&& g.adj@.len() < graph_bound()
    &&& g.links < graph_bound()
    &&& forall|i: int| 0 <= i < g.adj@.len() ==> (#[trigger] g.adj@[i])@.len() < graph_bound()
    &&& forall|i: int, k: int|
        0 <= i < g.adj@.len() && 0 <= k < g.adj@[i]@.len() ==> (#[trigger] g.adj@[i]@[k]) < g.adj@.len()
}

/// Whether `y` is among the callers of `x` read so far: all of the lists
/// before `i`, and the first `k` entries of list `i`.
pub open spec fn called_by_upto(callers: Seq<Vec<usize>>, x: int, y: usize, i: int, k: int) -> bool {
    (x < i && callers[x]@.contains(y)) || (x == i && callers[x]@.subrange(0, k).contains(y))
}

/// Whether `a` and `b` are linked by what was read so far: distinct, and one
/// calls the other.
pub open spec fn linked_upto(callers: Seq<Vec<usize>>, a: int, b: int, i: int, k: int) -> bool {
    a != b && (called_by_upto(callers, a, b as usize, i, k) || called_by_upto(callers, b, a as usize, i, k))
}

/// Whether `a` and `b` are linked: distinct, and one calls the other.
pub open spec fn linked(callers: Seq<Vec<usize>>, a: int, b: int) -> bool {
    a != b && (callers[a]@.contains(b as usize) || callers[b]@.contains(a as usize))
}

/// How many of the first `k` entries of a caller list are not `me`.
pub open spec fn others(list: Seq<usize>, me: int, k: int) -> nat
    decreases k,
{
    if k <= 0 {
        0
    } else {
        others(list, me, k - 1) + if list[k - 1] as int != me {
            1nat
        } else {
            0nat
        }
    }
}

/// The caller entries of the first `i` lists that are not self-calls.
pub open spec fn caller_links(callers: Seq<Vec<usize>>, i: int) -> nat
    decreases i,
{
    if i <= 0 {
        0
    } else {
        caller_links(callers, i - 1) + others(callers[i - 1]@, i - 1, callers[i - 1]@.len() as int)
    }
}

/// The number of entries of the first `i` caller lists.
pub open spec fn entries(callers: Seq<Vec<usize>>, i: int) -> nat
    decreases i,
{
    if i <= 0 {
        0
    } else {
        entries(callers, i - 1) + callers[i - 1]@.len()
    }
}

/// The caller lists can be read as a graph: every caller is a symbol, and
/// there are fewer symbols and entries than `graph_bound`.
pub open spec fn callers_ok(callers: Seq<Vec<usize>>) -> bool {
    &&& callers.len() < graph_bound()
    &&& entries(callers, callers.len() as int) < graph_bound()
    &&& entries(callers, callers.len() as int) < usize::MAX
    &&& forall|i: int, k: int|
        0 <= i < callers.len() && 0 <= k < callers[i]@.len() ==> (#[trigger] callers[i]@[k]) < callers.len()
}

proof fn lemma_others_bound(list: Seq<usize>, me: int, k: int)
    requires
        0 <= k,
    ensures
        others(list, me, k) <= k,
    decreases k,
{
    if k > 0 {
        lemma_others_bound(list, me, k - 1);
    }
}

proof fn lemma_links_within_entries(callers: Seq<Vec<usize>>, i: int)
    requires
        0 <= i <= callers.len(),
    ensures
        caller_links(callers, i) <= entries(callers, i),
        entries(callers, i) <= entries(callers, callers.len() as int),
    decreases callers.len() - i,
{
    if i < callers.len() {
        lemma_links_within_entries(callers, i + 1);
    }
    lemma_links_prefix(callers, i);
}

proof fn lemma_links_prefix(callers: Seq<Vec<usize>>, i: int)
    requires
        0 <= i <= callers.len(),
    ensures
        caller_links(callers, i) <= entries(callers, i),
    decreases i,
{
    if i > 0 {
        lemma_links_prefix(callers, i - 1);
        lemma_others_bound(callers[i - 1]@, i - 1, callers[i - 1]@.len() as int);
    }
}

proof fn lemma_push_contains(v: Seq<usize>, x: usize, y: usize)
    ensures
        v.push(x).contains(y) <==> (v.contains(y) || y == x),
{
    if v.push(x).contains(y) && y != x {
        let j = choose|j: int| 0 <= j < v.len() + 1 && v.push(x)[j] == y;
        assert(v[j] == y);
    }
    if v.contains(y) {
        let j = choose|j: int| 0 <= j < v.len() && v[j] == y;
        assert(v.push(x)[j] == y);
    }
    if y == x {
        assert(v.push(x)[v.len() as int] == y);
    }
}

/// Whether `v` holds `x`.
fn holds(v: &Vec<usize>, x: usize) -> (b: bool)
    ensures
        b == v@.contains(x),
{
    let mut k: usize = 0;
    while k < v.len()
        invariant
            k <= v.len(),
            forall|p: int| 0 <= p < k ==> v@[p] != x,
        decreases v.len() - k,
    {
        if v[k] == x {
            assert(v@[k as int] == x);
            return true;
        }
        k = k + 1;
    }
    false
}

/// `adj[a]` with `x` added at its end, unless it already holds it.
fn add_neighbour(adj: &mut Vec<Vec<usize>>, a: usize, x: usize)
    requires
        a < old(adj).len(),
    ensures
        final(adj).len() == old(adj).len(),
        forall|j: int| 0 <= j < final(adj).len() && j != a ==> final(adj)@[j] == old(adj)@[j],
        final(adj)@[a as int]@ == if old(adj)@[a as int]@.contains(x) {
            old(adj)@[a as int]@
        } else {
            old(adj)@[a as int]@.push(x)
        },
{
    if !holds(&adj[a], x) {
        let mut row: Vec<usize> = Vec::new();
        let mut k: usize = 0;
        while k < adj[a].len()
            invariant
                a < adj.len(),
                k <= adj[a as int].len(),
                row@ == adj@[a as int]@.subrange(0, k as int),
            decreases adj[a as int].len() - k,
        {
            row.push(adj[a][k]);
            k = k + 1;
        }
        assert(row@ =~= adj@[a as int]@);
        row.push(x);
        adj.set(a, row);
    }
}

/// The undirected graph of the caller lists: `callers[i]` lists the symbols
/// that call symbol `i`. Each pair of distinct symbols where one calls the
/// other becomes a pair of neighbours, each neighbour listed once; `links`
/// counts the caller entries that are not self-calls.
pub fn build_call_graph(callers: &Vec<Vec<usize>>) -> (g: CallGraph)
    requires
        callers_ok(callers@),
    ensures
        graph_ok(g),
        g.adj@.len() == callers.len(),
        g.links == caller_links(callers@, callers.len() as int),
        forall|a: int, b: int|
            0 <= a < callers.len() && 0 <= b < callers.len() ==> (#[trigger] g.adj@[a]@.contains(b as usize)
                <==> linked(callers@, a, b)),
        forall|a: int| 0 <= a < callers.len() ==> (#[trigger] g.adj@[a]@).no_duplicates(),
        graph_simple(g),
{
    let n = callers.len();
    let ghost cs = callers@;
    let mut adj: Vec<Vec<usize>> = Vec::new();
    let mut j: usize = 0;
    while j < n
        invariant
            j <= n,
            adj.len() == j,
            forall|a: int| 0 <= a < j ==> (#[trigger] adj@[a])@.len() == 0,
        decreases n - j,
    {
        adj.push(Vec::new());
        j = j + 1;
    }
    let mut links: usize = 0;
    let mut i: usize = 0;
    proof {
        lemma_links_within_entries(cs, 0);
        assert forall|a: int, b: int| 0 <= a < n && 0 <= b < n implies (#[trigger] adj@[a]@.contains(b as usize)
            <==> linked_upto(cs, a, b, 0, 0)) by {
            assert(adj@[a]@.len() == 0);
        }
    }
    while i < n
        invariant
            cs == callers@,
            callers_ok(cs),
            n == cs.len(),
            i <= n,
            adj.len() == n,
            links == caller_links(cs, i as int),
            forall|a: int, p: int| 0 <= a < n && 0 <= p < adj@[a]@.len() ==> (#[trigger] adj@[a]@[p]) < n,
            forall|a: int| 0 <= a < n ==> (#[trigger] adj@[a])@.len() <= entries(cs, i as int),
            forall|a: int| 0 <= a < n ==> (#[trigger] adj@[a])@.no_duplicates(),
            forall|a: int, b: int|
                0 <= a < n && 0 <= b < n ==> (#[trigger] adj@[a]@.contains(b as usize) <==> linked_upto(
                    cs,
                    a,
                    b,
                    i as int,
                    0,
                )),
        decreases n - i,
    {
        let list = &callers[i];
        proof {
            lemma_links_within_entries(cs, i as int);
            lemma_links_within_entries(cs, i + 1);
            assert(entries(cs, i + 1) == entries(cs, i as int) + list@.len());
        }
        let mut k: usize = 0;
        let ghost base = caller_links(cs, i as int);
        while k < list.len()
            invariant
                cs == callers@,
                callers_ok(cs),
                n == cs.len(),
                i < n,
                list@ == cs[i as int]@,
                k <= list.len(),
                adj.len() == n,
                base == caller_links(cs, i as int),
                links == base + others(list@, i as int, k as int),
                entries(cs, i as int) + list@.len() <= entries(cs, n as int),
                entries(cs, n as int) < graph_bound(),
                base <= entries(cs, i as int),
                forall|a: int, p: int| 0 <= a < n && 0 <= p < adj@[a]@.len() ==> (#[trigger] adj@[a]@[p]) < n,
                forall|a: int| 0 <= a < n ==> (#[trigger] adj@[a])@.len() <= entries(cs, i as int) + k,
                forall|a: int| 0 <= a < n ==> (#[trigger] adj@[a])@.no_duplicates(),
                forall|a: int, b: int|
                    0 <= a < n && 0 <= b < n ==> (#[trigger] adj@[a]@.contains(b as usize) <==> linked_upto(
                        cs,
                        a,
                        b,
                        i as int,
                        k as int,
                    )),
            decreases list.len() - k,
        {
            let c = list[k];
            proof {
                assert(cs[i as int]@[k as int] < cs.len());
                lemma_others_bound(list@, i as int, k as int);
                assert(list@.subrange(0, k + 1) =~= list@.subrange(0, k as int).push(c));
            }
            if c != i {
                let ghost before = adj@;
                add_neighbour(&mut adj, i, c);
                let ghost mid = adj@;
                add_neighbour(&mut adj, c, i);
                assert(links < entries(cs, n as int));
                links = links + 1;
                proof {
                    assert forall|a: int| 0 <= a < n implies (#[trigger] adj@[a])@.no_duplicates() by {
                        assert(before[a]@.no_duplicates());
                        if a == i as int {
                            assert(mid[a]@.no_duplicates());
                        }
                    }
                    assert forall|a: int, b: int| 0 <= a < n && 0 <= b < n implies (
                    #[trigger] adj@[a]@.contains(b as usize) <==> linked_upto(cs, a, b, i as int, k + 1)) by {
                        assert(before[a]@.contains(b as usize) <==> linked_upto(cs, a, b, i as int, k as int));
                        if a != i as int && a != c as int {
                            assert(adj@[a] == mid[a]);
                            assert(mid[a] == before[a]);
                        } else if a == i as int {
                            assert(adj@[a] == mid[a]);
                            lemma_push_contains(before[a]@, c, b as usize);
                        } else {
                            assert(mid[a] == before[a]);
                            lemma_push_contains(mid[a]@, i, b as usize);
                        }
                        let sub = list@.subrange(0, k as int);
                        if sub.contains(b as usize) {
                            let q = choose|q: int| 0 <= q < sub.len() && sub[q] == b as usize;
                            assert(list@.subrange(0, k + 1)[q] == b as usize);
                        }
                        if sub.contains(a as usize) {
                            let q = choose|q: int| 0 <= q < sub.len() && sub[q] == a as usize;
                            assert(list@.subrange(0, k + 1)[q] == a as usize);
                        }
                        assert(list@.subrange(0, k + 1)[k as int] == c);
                    }
                }
            } else {
                proof {
                    assert forall|a: int, b: int| 0 <= a < n && 0 <= b < n implies (
                    #[trigger] adj@[a]@.contains(b as usize) <==> linked_upto(cs, a, b, i as int, k + 1)) by {
                        let sub = list@.subrange(0, k as int);
                        if sub.contains(b as usize) {
                            let q = choose|q: int| 0 <= q < sub.len() && sub[q] == b as usize;
                            assert(list@.subrange(0, k + 1)[q] == b as usize);
                        }
                        if sub.contains(a as usize) {
                            let q = choose|q: int| 0 <= q < sub.len() && sub[q] == a as usize;
                            assert(list@.subrange(0, k + 1)[q] == a as usize);
                        }
                    }
                }
            }
            k = k + 1;
        }
        proof {
            assert(list@.subrange(0, list@.len() as int) =~= list@);
            assert forall|a: int, b: int| 0 <= a < n && 0 <= b < n implies (#[trigger] adj@[a]@.contains(
                b as usize,
            ) <==> linked_upto(cs, a, b, i + 1, 0)) by {
                assert(linked_upto(cs, a, b, i as int, list@.len() as int) == linked_upto(cs, a, b, i + 1, 0));
            }
        }
        i = i + 1;
    }
    proof {
        lemma_links_within_entries(cs, n as int);
        assert forall|a: int, b: int| 0 <= a < n && 0 <= b < n implies (#[trigger] adj@[a]@.contains(
            b as usize,
        ) <==> linked(cs, a, b)) by {
            assert(linked_upto(cs, a, b, n as int, 0) == linked(cs, a, b));
        }
    }
    let g = CallGraph { adj, links };
    assert(graph_simple(g)) by {
        assert forall|a: int| 0 <= a < g.adj@.len() implies (#[trigger] g.adj@[a])@.no_duplicates()
            && !g.adj@[a]@.contains(a as usize) by {
            assert(!linked(cs, a, a));
        }
    }
    assert(graph_ok(g)) by {
        assert forall|a: int| 0 <= a < g.adj@.len() implies (#[trigger] g.adj@[a])@.len() < graph_bound() by {
            assert(adj@[a]@.len() <= entries(cs, n as int));
        }
    }
    g
}

/// No symbol is its own neighbour, and no neighbour is listed twice.
pub open spec fn graph_simple(g: CallGraph) -> bool {
    forall|a: int|
        0 <= a < g.adj@.len() ==> (#[trigger] g.adj@[a])@.no_duplicates() && !g.adj@[a]@.contains(a as usize)
}

// ── Gains ─────────────────────────────────────────────────────────────────

/// How many of the first `k` neighbours of `i` are in community `c`.
pub open spec fn links_to(g: CallGraph, comm: Seq<usize>, i: int, c: usize, k: int) -> int
    decreases k,
{
    if k <= 0 {
        0
    } else {
        links_to(g, comm, i, c, k - 1) + if comm[nbrs(g, i)[k - 1] as int] == c {
            1int
        } else {
            0int
        }
    }
}

/// The degrees of the symbols below `j` in community `c`, `skip` left out.
pub open spec fn weight(g: CallGraph, comm: Seq<usize>, c: usize, skip: int, j: int) -> int
    decreases j,
{
    if j <= 0 {
        0
    } else {
        weight(g, comm, c, skip, j - 1) + if j - 1 != skip && comm[j - 1] == c {
            degree(g, j - 1)
        } else {
            0
        }
    }
}

/// The gain, scaled by `2m²`, of moving symbol `i` into community `c`.
pub open spec fn gain(g: CallGraph, comm: Seq<usize>, i: int, c: usize) -> int {
    let cur = comm[i];
    let d = degree(g, i);
    let n = g.adj@.len() as int;
    g.links * (links_to(g, comm, i, c, d) - links_to(g, comm, i, cur, d)) - d * (weight(g, comm, c, i, n)
        - weight(g, comm, cur, i, n))
}

/// `c` is a community `i` could move to: another community holding one of
/// its neighbours.
pub open spec fn is_candidate(g: CallGraph, comm: Seq<usize>, i: int, c: usize) -> bool {
    c != comm[i] && exists|k: int| 0 <= k < degree(g, i) && comm[nbrs(g, i)[k] as int] == c
}

/// `c` is where `i` moves: a candidate with a positive gain, the largest
/// gain, and the smallest community among equal gains.
pub open spec fn is_best_move(g: CallGraph, comm: Seq<usize>, i: int, c: usize) -> bool {
    &&& is_candidate(g, comm, i, c)
    &&& gain(g, comm, i, c) > 0
    &&& forall|d: usize|
        #[trigger] is_candidate(g, comm, i, d) ==> gain(g, comm, i, d) < gain(g, comm, i, c) || (gain(
            g,
            comm,
            i,
            d,
        ) == gain(g, comm, i, c) && c <= d)
}

/// The community symbol `i` ends up in when its turn comes: the best move,
/// or its own community when no move gains.
pub open spec fn best_move(g: CallGraph, comm: Seq<usize>, i: int) -> usize {
    if exists|c: usize| is_best_move(g, comm, i, c) {
        choose|c: usize| is_best_move(g, comm, i, c)
    } else {
        comm[i]
    }
}

/// The best move among the communities of the first `k` neighbours, with
/// its gain: `(comm[i], 0)` while none gains.
pub open spec fn best_among(g: CallGraph, comm: Seq<usize>, i: int, k: int) -> (usize, int)
    decreases k,
{
    if k <= 0 {
        (comm[i], 0)
    } else {
        let (b, bg) = best_among(g, comm, i, k - 1);
        let c = comm[nbrs(g, i)[k - 1] as int];
        let gc = gain(g, comm, i, c);
        if c != comm[i] && (gc > bg || (b != comm[i] && gc == bg && c < b)) {
            (c, gc)
        } else {
            (b, bg)
        }
    }
}

proof fn lemma_best_move_unique(g: CallGraph, comm: Seq<usize>, i: int, a: usize, b: usize)
    requires
        is_best_move(g, comm, i, a),
        is_best_move(g, comm, i, b),
    ensures
        a == b,
{
    assert(is_candidate(g, comm, i, a));
    assert(is_candidate(g, comm, i, b));
}

/// What the scan of the first `k` neighbours knows.
proof fn lemma_best_among(g: CallGraph, comm: Seq<usize>, i: int, k: int)
    requires
        0 <= i < comm.len(),
        0 <= k <= degree(g, i),
    ensures
        ({
            let (b, bg) = best_among(g, comm, i, k);
            &&& b == comm[i] ==> bg == 0 && forall|p: int|
                0 <= p < k && comm[nbrs(g, i)[p] as int] != comm[i] ==> gain(
                    g,
                    comm,
                    i,
                    #[trigger] comm[nbrs(g, i)[p] as int],
                ) <= 0
            &&& b != comm[i] ==> is_candidate(g, comm, i, b) && bg == gain(g, comm, i, b) && bg > 0
                && forall|p: int|
                0 <= p < k && comm[nbrs(g, i)[p] as int] != comm[i] ==> gain(
                    g,
                    comm,
                    i,
                    #[trigger] comm[nbrs(g, i)[p] as int],
                ) < bg || (gain(g, comm, i, comm[nbrs(g, i)[p] as int]) == bg && b <= comm[nbrs(
                    g,
                    i,
                )[p] as int])
        }),
    decreases k,
{
    if k > 0 {
        lemma_best_among(g, comm, i, k - 1);
        let (b, bg) = best_among(g, comm, i, k - 1);
        let c = comm[nbrs(g, i)[k - 1] as int];
        if c != comm[i] {
            assert(is_candidate(g, comm, i, c));
        }
    }
}

/// The scan of all neighbours finds the best move.
proof fn lemma_best_among_is_best_move(g: CallGraph, comm: Seq<usize>, i: int)
    requires
        0 <= i < comm.len(),
    ensures
        best_among(g, comm, i, degree(g, i)).0 == best_move(g, comm, i),
{
    let d = degree(g, i);
    lemma_best_among(g, comm, i, d);
    let (b, bg) = best_among(g, comm, i, d);
    if b != comm[i] {
        assert forall|x: usize| #[trigger] is_candidate(g, comm, i, x) implies gain(g, comm, i, x) < bg || (
        gain(g, comm, i, x) == bg && b <= x) by {
            let p = choose|p: int| 0 <= p < d && comm[nbrs(g, i)[p] as int] == x;
            assert(comm[nbrs(g, i)[p] as int] == x);
        }
        assert(is_best_move(g, comm, i, b));
        let c = choose|c: usize| is_best_move(g, comm, i, c);
        lemma_best_move_unique(g, comm, i, b, c);
    } else {
        if exists|c: usize| is_best_move(g, comm, i, c) {
            let c = choose|c: usize| is_best_move(g, comm, i, c);
            let p = choose|p: int| 0 <= p < d && comm[nbrs(g, i)[p] as int] == c;
            assert(comm[nbrs(g, i)[p] as int] == c);
            assert(false);
        }
    }
}

// ── Computing gains ───────────────────────────────────────────────────────

proof fn lemma_links_bound(g: CallGraph, comm: Seq<usize>, i: int, c: usize, k: int)
    requires
        0 <= k,
    ensures
        0 <= links_to(g, comm, i, c, k) <= k,
    decreases k,
{
    if k > 0 {
        lemma_links_bound(g, comm, i, c, k - 1);
    }
}

proof fn lemma_weight_bound(g: CallGraph, comm: Seq<usize>, c: usize, skip: int, j: int)
    requires
        graph_ok(g),
        0 <= j <= g.adj@.len(),
    ensures
        0 <= weight(g, comm, c, skip, j) <= j * graph_bound(),
    decreases j,
{
    if j > 0 {
        lemma_weight_bound(g, comm, c, skip, j - 1);
        assert(degree(g, j - 1) < graph_bound()) by {
            assert(g.adj@[j - 1]@.len() < graph_bound());
        }
    }
}

/// How many neighbours of `i` are in community `c`.
fn count_links(g: &CallGraph, comm: &Vec<usize>, i: usize, c: usize) -> (r: u64)
    requires
        graph_ok(*g),
        comm.len() == g.adj.len(),
        i < g.adj.len(),
    ensures
        r == links_to(*g, comm@, i as int, c, degree(*g, i as int)),
{
    let ns = &g.adj[i];
    assert(ns@ == nbrs(*g, i as int));
    assert(ns@.len() < graph_bound()) by {
        assert(g.adj@[i as int]@.len() < graph_bound());
    }
    let mut r: u64 = 0;
    let mut k: usize = 0;
    while k < ns.len()
        invariant
            graph_ok(*g),
            comm.len() == g.adj.len(),
            i < g.adj.len(),
            ns@ == nbrs(*g, i as int),
            ns@.len() < graph_bound(),
            k <= ns.len(),
            r == links_to(*g, comm@, i as int, c, k as int),
        decreases ns.len() - k,
    {
        proof {
            lemma_links_bound(*g, comm@, i as int, c, k as int);
            assert(g.adj@[i as int]@[k as int] < g.adj@.len());
        }
        if comm[ns[k]] == c {
            r = r + 1;
        }
        k = k + 1;
    }
    r
}

/// The degrees of the symbols in community `c`, `skip` left out.
fn weight_of(g: &CallGraph, comm: &Vec<usize>, c: usize, skip: usize) -> (r: u128)
    requires
        graph_ok(*g),
        comm.len() == g.adj.len(),
    ensures
        r == weight(*g, comm@, c, skip as int, g.adj@.len() as int),
{
    let n = g.adj.len();
    let mut r: u128 = 0;
    let mut j: usize = 0;
    while j < n
        invariant
            graph_ok(*g),
            comm.len() == g.adj.len(),
            n == g.adj.len(),
            j <= n,
            r == weight(*g, comm@, c, skip as int, j as int),
        decreases n - j,
    {
        proof {
            lemma_weight_bound(*g, comm@, c, skip as int, j as int);
            assert(g.adj@[j as int]@.len() < graph_bound());
            assert(j * graph_bound() + graph_bound() <= graph_bound() * graph_bound()) by (nonlinear_arith)
                requires
                    j < graph_bound(),
            ;
        }
        if j != skip && comm[j] == c {
            r = r + g.adj[j].len() as u128;
        }
        j = j + 1;
    }
    r
}

/// The scaled gain of moving `i` into `c`.
fn gain_of(g: &CallGraph, comm: &Vec<usize>, i: usize, c: usize) -> (r: i128)
    requires
        graph_ok(*g),
        comm.len() == g.adj.len(),
        i < g.adj.len(),
    ensures
        r == gain(*g, comm@, i as int, c),
{
    let cur = comm[i];
    let n = g.adj.len();
    let d = g.adj[i].len();
    let kt = count_links(g, comm, i, c);
    let kc = count_links(g, comm, i, cur);
    let wt = weight_of(g, comm, c, i);
    let wc = weight_of(g, comm, cur, i);
    proof {
        let dd = degree(*g, i as int);
        lemma_links_bound(*g, comm@, i as int, c, dd);
        lemma_links_bound(*g, comm@, i as int, cur, dd);
        lemma_weight_bound(*g, comm@, c, i as int, n as int);
        lemma_weight_bound(*g, comm@, cur, i as int, n as int);
        assert(dd < graph_bound()) by {
            assert(g.adj@[i as int]@.len() < graph_bound());
        }
        let b = graph_bound();
        assert(n * b <= b * b) by (nonlinear_arith)
            requires
                n < b,
                b > 0,
        ;
        assert(g.links * dd <= b * b) by (nonlinear_arith)
            requires
                g.links < b,
                0 <= dd < b,
        ;
        assert(dd * (b * b) <= b * b * b) by (nonlinear_arith)
            requires
                0 <= dd < b,
        ;
        assert(b * b * b == 1329227995784915872903807060280344576) by (nonlinear_arith)
            requires
                b == 0x100_0000_0000,
        ;
        assert(g.links * (kt as int - kc as int) <= g.links * dd) by (nonlinear_arith)
            requires
                0 <= g.links,
                0 <= kt <= dd,
                0 <= kc,
        ;
        assert(g.links * (kt as int - kc as int) >= -(g.links * dd)) by (nonlinear_arith)
            requires
                0 <= g.links,
                0 <= kc <= dd,
                0 <= kt,
        ;
        assert(dd * (wt as int - wc as int) <= dd * (b * b)) by (nonlinear_arith)
            requires
                0 <= dd,
                0 <= wt <= b * b,
                0 <= wc,
        ;
        assert(dd * (wt as int - wc as int) >= -(dd * (b * b))) by (nonlinear_arith)
            requires
                0 <= dd,
                0 <= wc <= b * b,
                0 <= wt,
        ;
    }
    let links = g.links as i128;
    let a = links * (kt as i128 - kc as i128);
    let w = (d as i128) * (wt as i128 - wc as i128);
    a - w
}

/// Where symbol `i` moves in its turn.
fn best_move_of(g: &CallGraph, comm: &Vec<usize>, i: usize) -> (r: usize)
    requires
        graph_ok(*g),
        comm.len() == g.adj.len(),
        i < g.adj.len(),
    ensures
        r == best_move(*g, comm@, i as int),
{
    let ns = &g.adj[i];
    let cur = comm[i];
    let mut b: usize = cur;
    let mut bg: i128 = 0;
    let mut k: usize = 0;
    while k < ns.len()
        invariant
            graph_ok(*g),
            comm.len() == g.adj.len(),
            i < g.adj.len(),
            ns@ == nbrs(*g, i as int),
            cur == comm@[i as int],
            k <= ns.len(),
            (b, bg as int) == best_among(*g, comm@, i as int, k as int),
        decreases ns.len() - k,
    {
        proof {
            assert(g.adj@[i as int]@[k as int] < g.adj@.len());
        }
        let c = comm[ns[k]];
        if c != cur {
            let gc = gain_of(g, comm, i, c);
            if gc > bg || (b != cur && gc == bg && c < b) {
                b = c;
                bg = gc;
            }
        }
        k = k + 1;
    }
    proof {
        lemma_best_among_is_best_move(*g, comm@, i as int);
    }
    b
}

// ── Sweeps ────────────────────────────────────────────────────────────────

/// How many sweeps run at most.
pub const MAX_SWEEPS: usize = 20;

/// The communities after the first `i` symbols of a sweep took their turn.
pub open spec fn swept(g: CallGraph, comm: Seq<usize>, i: int) -> Seq<usize>
    decreases i,
{
    if i <= 0 {
        comm
    } else {
        let c = swept(g, comm, i - 1);
        c.update(i - 1, best_move(g, c, i - 1))
    }
}

/// Whether one of the first `i` symbols of a sweep moved.
pub open spec fn moved(g: CallGraph, comm: Seq<usize>, i: int) -> bool
    decreases i,
{
    if i <= 0 {
        false
    } else {
        let c = swept(g, comm, i - 1);
        moved(g, comm, i - 1) || best_move(g, c, i - 1) != c[i - 1]
    }
}

/// At most `k` more sweeps from `comm`, stopping after one that moves
/// nothing.
pub open spec fn sweeps_from(g: CallGraph, comm: Seq<usize>, k: nat) -> Seq<usize>
    decreases k,
{
    let n = g.adj@.len() as int;
    if k == 0 {
        comm
    } else if moved(g, comm, n) {
        sweeps_from(g, swept(g, comm, n), (k - 1) as nat)
    } else {
        swept(g, comm, n)
    }
}

/// Every symbol alone: symbol `i` in community `i`.
pub open spec fn singletons(n: int) -> Seq<usize> {
    Seq::new(n as nat, |i: int| i as usize)
}

/// The community of each symbol once the sweeps are done.
pub open spec fn communities_of(g: CallGraph) -> Seq<usize> {
    sweeps_from(g, singletons(g.adj@.len() as int), MAX_SWEEPS as nat)
}

proof fn lemma_swept_len(g: CallGraph, comm: Seq<usize>, i: int)
    requires
        0 <= i <= comm.len(),
    ensures
        swept(g, comm, i).len() == comm.len(),
    decreases i,
{
    if i > 0 {
        lemma_swept_len(g, comm, i - 1);
    }
}

/// One sweep: each symbol in turn takes its best move. Returns whether any
/// symbol moved.
fn sweep(g: &CallGraph, comm: &mut Vec<usize>) -> (m: bool)
    requires
        graph_ok(*g),
        old(comm).len() == g.adj.len(),
    ensures
        final(comm)@ == swept(*g, old(comm)@, g.adj@.len() as int),
        m == moved(*g, old(comm)@, g.adj@.len() as int),
{
    let ghost start = comm@;
    let n = g.adj.len();
    let mut m = false;
    let mut i: usize = 0;
    while i < n
        invariant
            graph_ok(*g),
            n == g.adj.len(),
            start.len() == n,
            i <= n,
            comm@ == swept(*g, start, i as int),
            comm.len() == n,
            m == moved(*g, start, i as int),
        decreases n - i,
    {
        let b = best_move_of(g, comm, i);
        if b != comm[i] {
            comm.set(i, b);
            m = true;
        } else {
            assert(comm@.update(i as int, b) =~= comm@);
        }
        proof {
            lemma_swept_len(*g, start, i + 1);
        }
        i = i + 1;
    }
    m
}

/// The community of each symbol: every symbol starts alone, and sweeps run
/// until one moves nothing or `MAX_SWEEPS` have run.
pub fn detect_communities(g: &CallGraph) -> (r: Vec<usize>)
    requires
        graph_ok(*g),
    ensures
        r@ == communities_of(*g),
{
    let n = g.adj.len();
    let mut comm: Vec<usize> = Vec::new();
    let mut j: usize = 0;
    while j < n
        invariant
            j <= n,
            comm@ == singletons(n as int).subrange(0, j as int),
        decreases n - j,
    {
        comm.push(j);
        j = j + 1;
    }
    assert(comm@ =~= singletons(n as int));
    let mut left: usize = MAX_SWEEPS;
    let ghost goal = communities_of(*g);
    loop
        invariant
            graph_ok(*g),
            n == g.adj.len(),
            comm.len() == n,
            left <= MAX_SWEEPS,
            goal == communities_of(*g),
            sweeps_from(*g, comm@, left as nat) == goal,
        decreases left,
    {
        if left == 0 {
            return comm;
        }
        let ghost before = comm@;
        let m = sweep(g, &mut comm);
        proof {
            lemma_swept_len(*g, before, n as int);
        }
        if !m {
            return comm;
        }
        left = left - 1;
    }
}

// ── What the sweeps reach ─────────────────────────────────────────────────

proof fn lemma_still_sweep(g: CallGraph, comm: Seq<usize>, i: int)
    requires
        0 <= i <= comm.len(),
        !moved(g, comm, i),
    ensures
        swept(g, comm, i) == comm,
        forall|j: int| 0 <= j < i ==> #[trigger] best_move(g, comm, j) == comm[j],
    decreases i,
{
    if i > 0 {
        lemma_still_sweep(g, comm, i - 1);
        let c = swept(g, comm, i - 1);
        assert(c.update(i - 1, best_move(g, c, i - 1)) =~= comm);
    }
}

/// A symbol stays only where no move gains: when some candidate community
/// has a positive gain, the best move leaves the symbol's community.
proof fn lemma_positive_gain_moves(g: CallGraph, comm: Seq<usize>, i: int, c: usize)
    requires
        0 <= i < comm.len(),
        is_candidate(g, comm, i, c),
        gain(g, comm, i, c) > 0,
    ensures
        best_move(g, comm, i) != comm[i],
{
    let d = degree(g, i);
    lemma_best_among(g, comm, i, d);
    lemma_best_among_is_best_move(g, comm, i);
    let p = choose|p: int| 0 <= p < d && comm[nbrs(g, i)[p] as int] == c;
    assert(comm[nbrs(g, i)[p] as int] == c);
}

/// When a sweep moves nothing, the communities are a local optimum: no
/// symbol has a neighbouring community whose gain is positive.
pub proof fn law_still_sweep_is_local_optimum(g: CallGraph, comm: Seq<usize>)
    requires
        comm.len() == g.adj@.len(),
        !moved(g, comm, g.adj@.len() as int),
    ensures
        forall|i: int, c: usize|
            0 <= i < comm.len() && #[trigger] is_candidate(g, comm, i, c) ==> gain(g, comm, i, c) <= 0,
{
    lemma_still_sweep(g, comm, comm.len() as int);
    assert forall|i: int, c: usize| 0 <= i < comm.len() && #[trigger] is_candidate(g, comm, i, c) implies gain(
        g,
        comm,
        i,
        c,
    ) <= 0 by {
        if gain(g, comm, i, c) > 0 {
            lemma_positive_gain_moves(g, comm, i, c);
            assert(best_move(g, comm, i) == comm[i]);
        }
    }
}

// ── Communities as lists of symbols ───────────────────────────────────────

/// The community labels of the first `j` symbols, each once, in order of
/// first appearance.
pub open spec fn labels_upto(comm: Seq<usize>, j: int) -> Seq<usize>
    decreases j,
{
    if j <= 0 {
        seq![]
    } else {
        let prev = labels_upto(comm, j - 1);
        if prev.contains(comm[j - 1]) {
            prev
        } else {
            prev.push(comm[j - 1])
        }
    }
}

/// The symbols below `j` with label `c`, in order.
pub open spec fn members_upto(comm: Seq<usize>, c: usize, j: int) -> Seq<usize>
    decreases j,
{
    if j <= 0 {
        seq![]
    } else {
        members_upto(comm, c, j - 1) + if comm[j - 1] == c {
            seq![(j - 1) as usize]
        } else {
            seq![]
        }
    }
}

/// The groups of symbols sharing a label: one per label, in order of the
/// label's first symbol, each listing its symbols in order.
pub open spec fn groups_of(comm: Seq<usize>) -> Seq<Seq<usize>> {
    let n = comm.len() as int;
    labels_upto(comm, n).map_values(|c: usize| members_upto(comm, c, n))
}

/// The contents of a vector of vectors.
pub open spec fn rows(v: Seq<Vec<usize>>) -> Seq<Seq<usize>> {
    v.map_values(|r: Vec<usize>| r@)
}

/// Index of `c` in `labels`, if there.
fn label_index(labels: &Vec<usize>, c: usize) -> (r: Option<usize>)
    ensures
        match r {
            Some(k) => k < labels.len() && labels@[k as int] == c,
            None => !labels@.contains(c),
        },
{
    let mut k: usize = 0;
    while k < labels.len()
        invariant
            k <= labels.len(),
            forall|p: int| 0 <= p < k ==> labels@[p] != c,
        decreases labels.len() - k,
    {
        if labels[k] == c {
            return Some(k);
        }
        k = k + 1;
    }
    None
}

proof fn lemma_labels_distinct(comm: Seq<usize>, j: int)
    requires
        0 <= j <= comm.len(),
    ensures
        labels_upto(comm, j).no_duplicates(),
    decreases j,
{
    if j > 0 {
        lemma_labels_distinct(comm, j - 1);
        let prev = labels_upto(comm, j - 1);
        if !prev.contains(comm[j - 1]) {
            let pp = prev.push(comm[j - 1]);
            assert forall|a: int, b: int| 0 <= a < pp.len() && 0 <= b < pp.len() && a != b implies #[trigger] pp[a]
                != #[trigger] pp[b] by {
                if a == prev.len() {
                    assert(pp[b] == prev[b]);
                } else if b == prev.len() {
                    assert(pp[a] == prev[a]);
                } else {
                    assert(pp[a] == prev[a]);
                    assert(pp[b] == prev[b]);
                }
            }
        }
    }
}

/// The symbols grouped by their label: one group per label, in order of
/// the label's first symbol, each group in symbol order.
pub fn group_by_label(comm: &Vec<usize>) -> (r: Vec<Vec<usize>>)
    ensures
        rows(r@) == groups_of(comm@),
{
    let n = comm.len();
    let mut labels: Vec<usize> = Vec::new();
    let mut groups: Vec<Vec<usize>> = Vec::new();
    let mut j: usize = 0;
    while j < n
        invariant
            j <= n,
            n == comm.len(),
            labels@ == labels_upto(comm@, j as int),
            groups.len() == labels.len(),
            forall|k: int| 0 <= k < groups.len() ==> (#[trigger] groups@[k])@ == members_upto(comm@, labels@[k], j as int),
        decreases n - j,
    {
        let c = comm[j];
        proof {
            lemma_labels_distinct(comm@, j as int);
        }
        match label_index(&labels, c) {
            Some(k) => {
                let mut row: Vec<usize> = Vec::new();
                let mut p: usize = 0;
                while p < groups[k].len()
                    invariant
                        k < groups.len(),
                        p <= groups[k as int].len(),
                        row@ == groups@[k as int]@.subrange(0, p as int),
                    decreases groups[k as int].len() - p,
                {
                    row.push(groups[k][p]);
                    p = p + 1;
                }
                assert(row@ =~= groups@[k as int]@);
                row.push(j);
                let ghost before = groups@;
                groups.set(k, row);
                assert forall|q: int| 0 <= q < groups.len() implies (#[trigger] groups@[q])@ == members_upto(
                    comm@,
                    labels@[q],
                    j + 1,
                ) by {
                    if q != k as int {
                        assert(labels@[q] != c) by {
                            lemma_labels_distinct(comm@, j as int);
                        }
                        assert(groups@[q] == before[q]);
                    }
                }
            },
            None => {
                labels.push(c);
                let mut row: Vec<usize> = Vec::new();
                row.push(j);
                let ghost before = groups@;
                groups.push(row);
                assert forall|q: int| 0 <= q < groups.len() implies (#[trigger] groups@[q])@ == members_upto(
                    comm@,
                    labels@[q],
                    j + 1,
                ) by {
                    if q < before.len() {
                        assert(groups@[q] == before[q]);
                        assert(labels@[q] != c) by {
                            assert(labels_upto(comm@, j as int)[q] == labels@[q]);
                        }
                    } else {
                        lemma_members_absent(comm@, c, j as int);
                        assert(seq![] + seq![j] =~= seq![j]);
                    }
                }
            },
        }
        j = j + 1;
    }
    assert(rows(groups@) =~= groups_of(comm@));
    groups
}

/// A label not among the first `j` labels has no members below `j`.
proof fn lemma_members_absent(comm: Seq<usize>, c: usize, j: int)
    requires
        0 <= j <= comm.len(),
        !labels_upto(comm, j).contains(c),
    ensures
        members_upto(comm, c, j) == Seq::<usize>::empty(),
    decreases j,
{
    if j > 0 {
        let prev = labels_upto(comm, j - 1);
        assert(!prev.contains(c)) by {
            if prev.contains(c) {
                let q = choose|q: int| 0 <= q < prev.len() && prev[q] == c;
                if !prev.contains(comm[j - 1]) {
                    assert(prev.push(comm[j - 1])[q] == c);
                }
            }
        }
        assert(comm[j - 1] != c) by {
            if comm[j - 1] == c {
                if prev.contains(c) {
                } else {
                    assert(prev.push(c)[prev.len() as int] == c);
                }
            }
        }
        lemma_members_absent(comm, c, j - 1);
        assert(members_upto(comm, c, j) =~= Seq::<usize>::empty());
    }
}

// ── Every symbol in one community ─────────────────────────────────────────

/// The sizes of the groups, summed.
pub open spec fn total_size(groups: Seq<Seq<usize>>) -> nat
    decreases groups.len(),
{
    if groups.len() == 0 {
        0
    } else {
        total_size(groups.drop_last()) + groups.last().len()
    }
}

/// The members below `j` of the labels in `ls`, counted.
spec fn members_of_labels(comm: Seq<usize>, ls: Seq<usize>, j: int) -> nat
    decreases ls.len(),
{
    if ls.len() == 0 {
        0
    } else {
        members_of_labels(comm, ls.drop_last(), j) + members_upto(comm, ls.last(), j).len()
    }
}

proof fn lemma_members_step(comm: Seq<usize>, ls: Seq<usize>, j: int)
    requires
        0 < j <= comm.len(),
        ls.no_duplicates(),
    ensures
        members_of_labels(comm, ls, j) == members_of_labels(comm, ls, j - 1) + if ls.contains(comm[j - 1]) {
            1nat
        } else {
            0nat
        },
    decreases ls.len(),
{
    if ls.len() > 0 {
        let front = ls.drop_last();
        assert(front.no_duplicates()) by {
            assert forall|a: int, b: int| 0 <= a < front.len() && 0 <= b < front.len() && a != b implies #[trigger] front[a]
                != #[trigger] front[b] by {
                assert(front[a] == ls[a] && front[b] == ls[b]);
            }
        }
        lemma_members_step(comm, front, j);
        let x = comm[j - 1];
        if ls.last() == x {
            assert(ls[ls.len() - 1] == x);
            assert(!front.contains(x)) by {
                if front.contains(x) {
                    let q = choose|q: int| 0 <= q < front.len() && front[q] == x;
                    assert(ls[q] == x);
                }
            }
        } else {
            assert(ls.contains(x) == front.contains(x)) by {
                if ls.contains(x) {
                    let q = choose|q: int| 0 <= q < ls.len() && ls[q] == x;
                    assert(q < front.len());
                    assert(front[q] == x);
                }
                if front.contains(x) {
                    let q = choose|q: int| 0 <= q < front.len() && front[q] == x;
                    assert(ls[q] == x);
                }
            }
        }
    }
}

proof fn lemma_members_zero(comm: Seq<usize>, ls: Seq<usize>)
    ensures
        members_of_labels(comm, ls, 0) == 0,
    decreases ls.len(),
{
    if ls.len() > 0 {
        lemma_members_zero(comm, ls.drop_last());
    }
}

proof fn lemma_labels_cover(comm: Seq<usize>, j: int, x: int)
    requires
        0 <= x < j <= comm.len(),
    ensures
        labels_upto(comm, j).contains(comm[x]),
    decreases j,
{
    let prev = labels_upto(comm, j - 1);
    if x < j - 1 {
        lemma_labels_cover(comm, j - 1, x);
        let q = choose|q: int| 0 <= q < prev.len() && prev[q] == comm[x];
        if !prev.contains(comm[j - 1]) {
            assert(prev.push(comm[j - 1])[q] == comm[x]);
        }
    } else if !prev.contains(comm[j - 1]) {
        assert(prev.push(comm[j - 1])[prev.len() as int] == comm[x]);
    }
}

proof fn lemma_members_total(comm: Seq<usize>, ls: Seq<usize>, j: int)
    requires
        0 <= j <= comm.len(),
        ls.no_duplicates(),
        forall|x: int| 0 <= x < j ==> ls.contains(#[trigger] comm[x]),
    ensures
        members_of_labels(comm, ls, j) == j,
    decreases j,
{
    if j == 0 {
        lemma_members_zero(comm, ls);
    } else {
        lemma_members_total(comm, ls, j - 1);
        lemma_members_step(comm, ls, j);
        assert(ls.contains(comm[j - 1]));
    }
}

proof fn lemma_total_size_is_members(comm: Seq<usize>, ls: Seq<usize>, n: int)
    ensures
        total_size(ls.map_values(|c: usize| members_upto(comm, c, n))) == members_of_labels(comm, ls, n),
    decreases ls.len(),
{
    if ls.len() > 0 {
        lemma_total_size_is_members(comm, ls.drop_last(), n);
        assert(ls.map_values(|c: usize| members_upto(comm, c, n)).drop_last() =~= ls.drop_last().map_values(
            |c: usize| members_upto(comm, c, n),
        ));
    }
}

/// Grouping by label puts every symbol in exactly one group: the groups'
/// sizes add up to the number of symbols.
pub proof fn law_groups_hold_every_symbol(comm: Seq<usize>)
    ensures
        total_size(groups_of(comm)) == comm.len(),
{
    let n = comm.len() as int;
    let ls = labels_upto(comm, n);
    lemma_labels_distinct(comm, n);
    assert forall|x: int| 0 <= x < n implies ls.contains(#[trigger] comm[x]) by {
        lemma_labels_cover(comm, n, x);
    }
    lemma_members_total(comm, ls, n);
    lemma_total_size_is_members(comm, ls, n);
}

// ── Ordering, fallback and cohesion ───────────────────────────────────────

/// The sizes of the groups.
pub open spec fn sizes(groups: Seq<Seq<usize>>) -> Seq<usize> {
    groups.map_values(|m: Seq<usize>| m.len() as usize)
}

/// The order the communities are listed in: every group once, largest
/// first, ties in the order given.
pub fn order_by_size(groups: &Vec<Vec<usize>>) -> (r: Vec<usize>)
    ensures
        is_top_ranked(r@, sizes(rows(groups@)), all_kept(groups.len() as int), groups.len() as int),
        r@.len() == groups.len(),
        forall|x: usize| (x as int) < groups.len() ==> #[trigger] r@.contains(x),
{
    let mut counts: Vec<usize> = Vec::new();
    let mut k: usize = 0;
    while k < groups.len()
        invariant
            k <= groups.len(),
            counts@ == sizes(rows(groups@)).subrange(0, k as int),
        decreases groups.len() - k,
    {
        counts.push(groups[k].len());
        k = k + 1;
    }
    assert(counts@ =~= sizes(rows(groups@)));
    rank_all(&counts)
}

/// The label of each symbol when communities are its files: the first
/// symbol in the same file.
pub open spec fn is_file_label(fs: Seq<Seq<char>>, i: int, l: int) -> bool {
    &&& 0 <= l <= i
    &&& fs[l] == fs[i]
    &&& forall|j: int| 0 <= j < l ==> fs[j] != fs[i]
}

/// Labels grouping the symbols by file: each symbol's label is the first
/// symbol in its file.
pub fn file_labels(files: &Vec<String>) -> (r: Vec<usize>)
    ensures
        r@.len() == files.len(),
        forall|i: int| 0 <= i < files.len() ==> is_file_label(
            files@.map_values(|f: String| f@),
            i,
            #[trigger] r@[i] as int,
        ),
{
    let ghost fs = files@.map_values(|f: String| f@);
    let mut r: Vec<usize> = Vec::new();
    let mut i: usize = 0;
    while i < files.len()
        invariant
            i <= files.len(),
            fs == files@.map_values(|f: String| f@),
            r@.len() == i,
            forall|q: int| 0 <= q < i ==> is_file_label(fs, q, #[trigger] r@[q] as int),
        decreases files.len() - i,
    {
        let mut l: usize = 0;
        while l < i && !same_text(files[l].as_str(), files[i].as_str())
            invariant
                l <= i < files.len(),
                fs == files@.map_values(|f: String| f@),
                forall|j: int| 0 <= j < l ==> fs[j] != fs[i as int],
            decreases i - l,
        {
            l = l + 1;
        }
        r.push(l);
        i = i + 1;
    }
    r
}

/// The entries of `v` that are members.
pub open spec fn among(v: Seq<usize>, members: Seq<usize>) -> Seq<usize> {
    v.filter(|x: usize| members.contains(x))
}

/// The links among the first `k` members, counted from each end.
pub open spec fn inner_ends(g: CallGraph, members: Seq<usize>, k: int) -> int
    decreases k,
{
    if k <= 0 {
        0
    } else {
        inner_ends(g, members, k - 1) + among(nbrs(g, members[k - 1] as int), members).len()
    }
}

/// A community's cohesion as a fraction: its internal links (each counted
/// from both ends, halved) over the pairs of its members.
pub fn cohesion_parts(g: &CallGraph, members: &Vec<usize>) -> (r: (u128, u128))
    requires
        graph_ok(*g),
        members.len() < graph_bound(),
        forall|k: int| 0 <= k < members.len() ==> (#[trigger] members@[k]) < g.adj.len(),
    ensures
        r.0 == inner_ends(*g, members@, members.len() as int) / 2,
        r.1 == members.len() * (if members.len() > 0 { members.len() - 1 } else { 0 }) / 2,
        graph_simple(*g) && members@.no_duplicates() ==> r.0 <= r.1,
{
    proof {
        if graph_simple(*g) && members@.no_duplicates() {
            law_cohesion_is_a_fraction(*g, members@);
        }
    }
    let mut total: u128 = 0;
    let mut k: usize = 0;
    while k < members.len()
        invariant
            graph_ok(*g),
            members.len() < graph_bound(),
            forall|q: int| 0 <= q < members.len() ==> (#[trigger] members@[q]) < g.adj.len(),
            k <= members.len(),
            total == inner_ends(*g, members@, k as int),
            total <= k * graph_bound(),
        decreases members.len() - k,
    {
        let a = members[k];
        let ns = &g.adj[a];
        let ghost pred = |x: usize| members@.contains(x);
        let mut c: u128 = 0;
        let mut p: usize = 0;
        while p < ns.len()
            invariant
                p <= ns.len(),
                ns@.len() < graph_bound(),
                pred == (|x: usize| members@.contains(x)),
                c == ns@.subrange(0, p as int).filter(pred).len(),
                c <= p,
            decreases ns.len() - p,
        {
            proof {
                reveal(Seq::filter);
                let sub = ns@.subrange(0, p + 1);
                assert(sub.drop_last() =~= ns@.subrange(0, p as int));
                assert(sub.last() == ns@[p as int]);
            }
            if holds(members, ns[p]) {
                c = c + 1;
            }
            p = p + 1;
        }
        proof {
            assert(ns@.subrange(0, ns@.len() as int) =~= ns@);
            assert(g.adj@[a as int]@.len() < graph_bound());
            let b = graph_bound();
            assert((k + 1) * b <= 0x1_0000_0000_0000_0000_0000) by (nonlinear_arith)
                requires
                    k < b,
                    b == 0x100_0000_0000,
            ;
        }
        total = total + c;
        k = k + 1;
    }
    let m = members.len() as u128;
    proof {
        assert(m < 0x100_0000_0000);
        if m > 0 {
            assert(m * (m - 1) <= 0x1_0000_0000_0000_0000_0000) by (nonlinear_arith)
                requires
                    0 < m < 0x100_0000_0000,
            ;
        }
    }
    let pairs = if m > 0 { m * (m - 1) / 2 } else { 0 };
    (total / 2, pairs)
}

// ── Cohesion is a fraction ────────────────────────────────────────────────

/// A duplicate-free list whose entries are all in `within` (also duplicate
/// free) but never `x`, which is in it, is shorter than `within`.
proof fn lemma_distinct_inside(v: Seq<usize>, within: Seq<usize>, x: usize)
    requires
        v.no_duplicates(),
        within.no_duplicates(),
        within.contains(x),
        !v.contains(x),
        forall|k: int| 0 <= k < v.len() ==> within.contains(#[trigger] v[k]),
    ensures
        v.len() + 1 <= within.len(),
{
    broadcast use vstd::set::group_set_axioms;

    v.unique_seq_to_set();
    within.unique_seq_to_set();
    let rest = within.to_set().remove(x);
    assert(v.to_set().subset_of(rest)) by {
        assert forall|y: usize| v.to_set().contains(y) implies rest.contains(y) by {
            let k = choose|k: int| 0 <= k < v.len() && v[k] == y;
            assert(within.contains(v[k]));
        }
    }
    vstd::set_lib::lemma_len_subset(v.to_set(), rest);
}

proof fn lemma_filter_distinct(v: Seq<usize>, members: Seq<usize>)
    requires
        v.no_duplicates(),
    ensures
        among(v, members).no_duplicates(),
        forall|k: int| 0 <= k < among(v, members).len() ==> members.contains(#[trigger] among(v, members)[k]),
        forall|y: usize| #[trigger] among(v, members).contains(y) ==> v.contains(y),
    decreases v.len(),
{
    reveal(Seq::filter);
    let pred = |x: usize| members.contains(x);
    if v.len() > 0 {
        let front = v.drop_last();
        assert(front.no_duplicates()) by {
            assert forall|a: int, b: int| 0 <= a < front.len() && 0 <= b < front.len() && a != b implies #[trigger] front[a]
                != #[trigger] front[b] by {
                assert(front[a] == v[a] && front[b] == v[b]);
            }
        }
        lemma_filter_distinct(front, members);
        let ff = front.filter(pred);
        let last = v.last();
        if pred(last) {
            let f = ff.push(last);
            assert(v.filter(pred) == f);
            assert(!ff.contains(last)) by {
                if ff.contains(last) {
                    assert(front.contains(last));
                    let q = choose|q: int| 0 <= q < front.len() && front[q] == last;
                    assert(v[q] == v[v.len() - 1]);
                }
            }
            assert forall|a: int, b: int| 0 <= a < f.len() && 0 <= b < f.len() && a != b implies #[trigger] f[a]
                != #[trigger] f[b] by {
                if a == ff.len() {
                    assert(ff.contains(f[b]) || b == ff.len());
                    if b < ff.len() {
                        assert(f[b] == ff[b]);
                    }
                } else if b == ff.len() {
                    assert(f[a] == ff[a]);
                } else {
                    assert(f[a] == ff[a] && f[b] == ff[b]);
                }
            }
            assert forall|k: int| 0 <= k < f.len() implies members.contains(#[trigger] f[k]) by {
                if k < ff.len() {
                    assert(f[k] == ff[k]);
                }
            }
            assert forall|y: usize| #[trigger] f.contains(y) implies v.contains(y) by {
                let k = choose|k: int| 0 <= k < f.len() && f[k] == y;
                if k < ff.len() {
                    assert(f[k] == ff[k]);
                    assert(ff.contains(y));
                    let q = choose|q: int| 0 <= q < front.len() && front[q] == y;
                    assert(v[q] == y);
                } else {
                    assert(v[v.len() - 1] == y);
                }
            }
        } else {
            assert(v.filter(pred) == ff);
            assert forall|y: usize| #[trigger] ff.contains(y) implies v.contains(y) by {
                let q = choose|q: int| 0 <= q < front.len() && front[q] == y;
                assert(v[q] == y);
            }
        }
    }
}

proof fn lemma_inner_ends_bound(g: CallGraph, members: Seq<usize>, k: int)
    requires
        graph_simple(g),
        members.no_duplicates(),
        forall|q: int| 0 <= q < members.len() ==> (#[trigger] members[q] as int) < g.adj@.len(),
        0 <= k <= members.len(),
    ensures
        0 <= inner_ends(g, members, k) <= k * (members.len() - 1),
    decreases k,
{
    if k > 0 {
        lemma_inner_ends_bound(g, members, k - 1);
        let a = members[k - 1];
        let ns = nbrs(g, a as int);
        assert(ns.no_duplicates() && !ns.contains(a)) by {
            assert(g.adj@[a as int]@.no_duplicates() && !g.adj@[a as int]@.contains(a));
        }
        lemma_filter_distinct(ns, members);
        let f = among(ns, members);
        assert(!f.contains(a));
        assert(members.contains(a)) by {
            assert(members[k - 1] == a);
        }
        lemma_distinct_inside(f, members, a);
        assert((k - 1) * (members.len() - 1) + (members.len() - 1) == k * (members.len() - 1)) by (nonlinear_arith);
    }
}

/// A community's internal links never outnumber the pairs of its members,
/// so its cohesion is a fraction between zero and one.
pub proof fn law_cohesion_is_a_fraction(g: CallGraph, members: Seq<usize>)
    requires
        graph_simple(g),
        members.no_duplicates(),
        forall|q: int| 0 <= q < members.len() ==> (#[trigger] members[q] as int) < g.adj@.len(),
    ensures
        0 <= inner_ends(g, members, members.len() as int) / 2 <= members.len() * (if members.len() > 0 {
            members.len() - 1
        } else {
            0
        }) / 2,
{
    let m = members.len() as int;
    lemma_inner_ends_bound(g, members, m);
    if m > 0 {
        let t = inner_ends(g, members, m);
        assert(t / 2 <= m * (m - 1) / 2) by (nonlinear_arith)
            requires
                0 <= t <= m * (m - 1),
        ;
    }
}

} // verus!

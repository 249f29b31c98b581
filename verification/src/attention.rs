//! Attention over the code graph: how symbols are ranked by how often they
//! are called, which well-called symbols were never looked at, and what to
//! look at next.
use vstd::prelude::*;

verus! {

// ── Ranking by a count ────────────────────────────────────────────────────

/// `i` comes before `j`: a larger count first, and among equal counts the
/// one listed first (a stable sort by count, largest first).
pub open spec fn ranks_before(counts: Seq<usize>, i: int, j: int) -> bool {
    counts[i] > counts[j] || (counts[i] == counts[j] && i < j)
}

/// `r` lists the first `limit` indices `i` with `keep[i]`, in rank order:
/// every listed index is kept, the list is in strict rank order, and a kept
/// index that is left out comes after the last one listed, which only
/// happens once the list is `limit` long.
pub open spec fn is_top_ranked(r: Seq<usize>, counts: Seq<usize>, keep: Seq<bool>, limit: int) -> bool {
    &&& r.len() <= limit
    &&& forall|k: int| 0 <= k < r.len() ==> (#[trigger] r[k]) < counts.len() && keep[r[k] as int]
    &&& forall|a: int, b: int| 0 <= a < b < r.len() ==> ranks_before(counts, r[a] as int, r[b] as int)
    &&& forall|i: int|
        0 <= i < counts.len() && #[trigger] keep[i] && !r.contains(i as usize) ==> r.len() == limit
            && (r.len() > 0 ==> ranks_before(counts, r.last() as int, i))
}

/// Where two lists that both satisfy `is_top_ranked` agree before `k`, they
/// agree at `k` too.
proof fn lemma_top_ranked_step(
    r1: Seq<usize>,
    r2: Seq<usize>,
    counts: Seq<usize>,
    keep: Seq<bool>,
    limit: int,
    k: int,
)
    requires
        is_top_ranked(r1, counts, keep, limit),
        is_top_ranked(r2, counts, keep, limit),
        0 <= k < r1.len(),
        k < r2.len(),
        forall|j: int| 0 <= j < k ==> r1[j] == r2[j],
    ensures
        r1[k] == r2[k],
{
    if r1[k] != r2[k] {
        let (a, b, ra, rb) = if ranks_before(counts, r1[k] as int, r2[k] as int) {
            (r1, r2, r1[k], r2[k])
        } else {
            (r2, r1, r2[k], r1[k])
        };
        // `ra` ranks before `rb`; `ra` is kept, so `b` holds it or ends before it.
        assert(ranks_before(counts, ra as int, rb as int));
        assert(a[k] == ra && b[k] == rb);
        assert(keep[ra as int]);
        if b.contains(ra) {
            let m = choose|m: int| 0 <= m < b.len() && b[m] == ra;
            if m < k {
                assert(a[m] == b[m]);
                assert(ranks_before(counts, a[m] as int, a[k] as int));
            } else if m > k {
                assert(ranks_before(counts, b[k] as int, b[m] as int));
            }
        } else {
            let l = b.len() - 1;
            assert(ranks_before(counts, b.last() as int, ra as int));
            if k < l {
                assert(ranks_before(counts, b[k] as int, b[l] as int));
            }
        }
    }
}

/// Two lists that both satisfy `is_top_ranked` agree on their first `k`
/// places, for any `k` within both.
proof fn lemma_top_ranked_prefix(
    r1: Seq<usize>,
    r2: Seq<usize>,
    counts: Seq<usize>,
    keep: Seq<bool>,
    limit: int,
    k: int,
)
    requires
        is_top_ranked(r1, counts, keep, limit),
        is_top_ranked(r2, counts, keep, limit),
        0 <= k <= r1.len(),
        k <= r2.len(),
    ensures
        forall|j: int| 0 <= j < k ==> r1[j] == r2[j],
    decreases k,
{
    if k > 0 {
        lemma_top_ranked_prefix(r1, r2, counts, keep, limit, k - 1);
        lemma_top_ranked_step(r1, r2, counts, keep, limit, k - 1);
    }
}

/// The ranking is determined: two lists that both satisfy `is_top_ranked`
/// for the same counts, mask and limit are the same list.
pub proof fn law_top_ranked_unique(
    r1: Seq<usize>,
    r2: Seq<usize>,
    counts: Seq<usize>,
    keep: Seq<bool>,
    limit: int,
)
    requires
        is_top_ranked(r1, counts, keep, limit),
        is_top_ranked(r2, counts, keep, limit),
    ensures
        r1 == r2,
{
    let n = if r1.len() < r2.len() { r1.len() } else { r2.len() };
    lemma_top_ranked_prefix(r1, r2, counts, keep, limit, n as int);
    if r1.len() != r2.len() {
        let (short, long) = if r1.len() < r2.len() { (r1, r2) } else { (r2, r1) };
        let x = long[short.len() as int];
        assert(keep[x as int]);
        assert(!short.contains(x)) by {
            if short.contains(x) {
                let m = choose|m: int| 0 <= m < short.len() && short[m] == x;
                assert(long[m] == short[m]);
                assert(ranks_before(counts, long[m] as int, long[short.len() as int] as int));
            }
        }
        assert(short.len() == limit);
    }
    assert(r1 =~= r2);
}

/// The index among the kept ones that ranks first after `last` (or first of
/// all when there is no `last`), if any is left.
fn next_ranked(counts: &Vec<usize>, keep: &Vec<bool>, last: Option<usize>) -> (b: Option<usize>)
    requires
        counts.len() == keep.len(),
        last is Some ==> last->0 < counts.len(),
    ensures
        b is None ==> forall|i: int|
            0 <= i < counts.len() && keep@[i] ==> !(last is None || ranks_before(counts@, last->0 as int, i)),
        b is Some ==> {
            let x = b->0 as int;
            &&& 0 <= x < counts.len()
            &&& keep@[x]
            &&& (last is None || ranks_before(counts@, last->0 as int, x))
            &&& forall|i: int|
                0 <= i < counts.len() && keep@[i] && i != x && (last is None || ranks_before(
                    counts@,
                    last->0 as int,
                    i,
                )) ==> ranks_before(counts@, x, i)
        },
{
    let mut best: Option<usize> = None;
    let mut i: usize = 0;
    while i < counts.len()
        invariant
            i <= counts.len(),
            counts.len() == keep.len(),
            last is Some ==> last->0 < counts.len(),
            best is None ==> forall|j: int|
                0 <= j < i && keep@[j] ==> !(last is None || ranks_before(counts@, last->0 as int, j)),
            best is Some ==> {
                let x = best->0 as int;
                &&& 0 <= x < i
                &&& keep@[x]
                &&& (last is None || ranks_before(counts@, last->0 as int, x))
                &&& forall|j: int|
                    0 <= j < i && keep@[j] && j != x && (last is None || ranks_before(
                        counts@,
                        last->0 as int,
                        j,
                    )) ==> ranks_before(counts@, x, j)
            },
        decreases counts.len() - i,
    {
        let after_last = match last {
            None => true,
            Some(l) => counts[l] > counts[i] || (counts[l] == counts[i] && l < i),
        };
        if keep[i] && after_last {
            let better = match best {
                None => true,
                Some(b) => counts[i] > counts[b] || (counts[i] == counts[b] && i < b),
            };
            if better {
                best = Some(i);
            }
        }
        i = i + 1;
    }
    best
}

/// The first `limit` indices `i` with `keep[i]`, ordered by `counts[i]`,
/// largest first, ties in index order.
pub fn top_by_count(counts: &Vec<usize>, keep: &Vec<bool>, limit: usize) -> (r: Vec<usize>)
    requires
        counts.len() == keep.len(),
    ensures
        is_top_ranked(r@, counts@, keep@, limit as int),
{
    let mut r: Vec<usize> = Vec::new();
    let mut done = false;
    while r.len() < limit && !done
        invariant
            counts.len() == keep.len(),
            r.len() <= limit,
            forall|k: int| 0 <= k < r.len() ==> (#[trigger] r@[k]) < counts.len() && keep@[r@[k] as int],
            forall|a: int, b: int| 0 <= a < b < r.len() ==> ranks_before(counts@, r@[a] as int, r@[b] as int),
            forall|i: int|
                0 <= i < counts.len() && #[trigger] keep@[i] && !r@.contains(i as usize) ==> (r.len() > 0
                    ==> ranks_before(counts@, r@.last() as int, i)),
            done ==> forall|i: int| 0 <= i < counts.len() && #[trigger] keep@[i] ==> r@.contains(i as usize),
        decreases 2 * (limit - r.len()) + if done { 0int } else { 1int },
    {
        let last = if r.len() == 0 { None } else { Some(r[r.len() - 1]) };
        match next_ranked(counts, keep, last) {
            None => {
                assert forall|i: int| 0 <= i < counts.len() && #[trigger] keep@[i] implies r@.contains(i as usize) by {
                    if !r@.contains(i as usize) {
                        if r.len() > 0 {
                            assert(ranks_before(counts@, r@.last() as int, i));
                        }
                    }
                }
                done = true;
            },
            Some(b) => {
                let ghost old_r = r@;
                proof {
                    assert forall|k: int| 0 <= k < old_r.len() implies ranks_before(counts@, old_r[k] as int, b as int) by {
                        let lastk = old_r.len() - 1;
                        if k < lastk {
                            assert(ranks_before(counts@, old_r[k] as int, old_r[lastk] as int));
                        }
                    }
                }
                r.push(b);
                assert forall|i: int|
                    0 <= i < counts.len() && #[trigger] keep@[i] && !r@.contains(i as usize) implies ranks_before(
                    counts@,
                    r@.last() as int,
                    i,
                ) by {
                    assert(!old_r.contains(i as usize)) by {
                        if old_r.contains(i as usize) {
                            let k = choose|k: int| 0 <= k < old_r.len() && old_r[k] == i as usize;
                            assert(r@[k] == i as usize);
                        }
                    }
                    assert(i != b as int) by {
                        if i == b as int {
                            assert(r@[old_r.len() as int] == b);
                        }
                    }
                }
            },
        }
    }
    r
}


// ── Ranking everything ────────────────────────────────────────────────────

/// Every index kept.
pub open spec fn all_kept(n: int) -> Seq<bool> {
    Seq::new(n as nat, |i: int| true)
}

/// The indices below `n`, as a set.
proof fn lemma_below_set(n: int)
    requires
        0 <= n <= usize::MAX + 1,
    ensures
        Set::new(|x: usize| (x as int) < n).finite(),
        Set::new(|x: usize| (x as int) < n).len() == n,
    decreases n,
{
    if n == 0 {
        assert(Set::new(|x: usize| (x as int) < n) =~= Set::<usize>::empty());
    } else {
        lemma_below_set(n - 1);
        assert(Set::new(|x: usize| (x as int) < n) =~= Set::new(|x: usize| (x as int) < n - 1).insert(
            (n - 1) as usize,
        ));
    }
}

/// A duplicate-free list of `n` indices below `n` holds every index below
/// `n`; a duplicate-free list holding every index below `n` has at least
/// `n` entries.
proof fn lemma_distinct_indices(r: Seq<usize>, n: int)
    requires
        0 <= n <= usize::MAX + 1,
        r.no_duplicates(),
    ensures
        r.len() == n && (forall|k: int| 0 <= k < r.len() ==> (#[trigger] r[k] as int) < n) ==> forall|x: usize|
            (x as int) < n ==> #[trigger] r.contains(x),
        (forall|x: usize| (x as int) < n ==> #[trigger] r.contains(x)) ==> r.len() >= n,
{
    broadcast use vstd::set::group_set_axioms;

    lemma_below_set(n);
    let all = Set::new(|x: usize| (x as int) < n);
    r.unique_seq_to_set();
    if r.len() == n && (forall|k: int| 0 <= k < r.len() ==> (#[trigger] r[k] as int) < n) {
        assert forall|x: usize| (x as int) < n implies #[trigger] r.contains(x) by {
            if !r.contains(x) {
                let rest = all.remove(x);
                assert(r.to_set().subset_of(rest)) by {
                    assert forall|y: usize| r.to_set().contains(y) implies rest.contains(y) by {
                        let k = choose|k: int| 0 <= k < r.len() && r[k] == y;
                        assert((r[k] as int) < n);
                    }
                }
                assert(all.contains(x));
                vstd::set_lib::lemma_len_subset(r.to_set(), rest);
            }
        }
    }
    if forall|x: usize| (x as int) < n ==> #[trigger] r.contains(x) {
        assert(all.subset_of(r.to_set()));
        vstd::set_lib::lemma_len_subset(all, r.to_set());
    }
}

/// All indices, ordered by `counts`: largest first, ties in index order.
pub fn rank_all(counts: &Vec<usize>) -> (r: Vec<usize>)
    ensures
        is_top_ranked(r@, counts@, all_kept(counts.len() as int), counts.len() as int),
        r@.len() == counts.len(),
        forall|x: usize| (x as int) < counts.len() ==> #[trigger] r@.contains(x),
{
    let mut keep: Vec<bool> = Vec::new();
    let mut i: usize = 0;
    while i < counts.len()
        invariant
            i <= counts.len(),
            keep@ == all_kept(counts.len() as int).subrange(0, i as int),
        decreases counts.len() - i,
    {
        keep.push(true);
        i = i + 1;
    }
    assert(keep@ =~= all_kept(counts.len() as int));
    let r = top_by_count(counts, &keep, counts.len());
    let ghost n = counts.len() as int;
    proof {
        assert(r@.no_duplicates()) by {
            assert forall|a: int, b: int| 0 <= a < r@.len() && 0 <= b < r@.len() && a != b implies #[trigger] r@[a]
                != #[trigger] r@[b] by {
                if a < b {
                    assert(ranks_before(counts@, r@[a] as int, r@[b] as int));
                } else {
                    assert(ranks_before(counts@, r@[b] as int, r@[a] as int));
                }
            }
        }
        lemma_distinct_indices(r@, n);
        if r@.len() < n {
            assert forall|x: usize| (x as int) < n implies #[trigger] r@.contains(x) by {
                assert(all_kept(n)[x as int]);
            }
        }
    }
    r
}

// ── What the tools list ───────────────────────────────────────────────────

/// How many of the most-called symbols the codebase report lists.
pub const MOST_CALLED_SHOWN: usize = 10;

/// A symbol with more callers than this that was never looked at is a
/// blind spot.
pub const BLIND_SPOT_MIN_CALLERS: usize = 3;

/// How many blind spots the exploration map lists.
pub const BLIND_SPOTS_SHOWN: usize = 20;

/// Which symbols have any caller.
pub open spec fn called_mask(calls: Seq<usize>) -> Seq<bool> {
    Seq::new(calls.len(), |i: int| calls[i] > 0)
}

/// Which symbols are blind spots: never looked at, and called by more than
/// `BLIND_SPOT_MIN_CALLERS` others.
pub open spec fn blind_spot_mask(calls: Seq<usize>, explored: Seq<bool>) -> Seq<bool> {
    Seq::new(calls.len(), |i: int| !explored[i] && calls[i] > BLIND_SPOT_MIN_CALLERS)
}

/// Which symbols were never looked at.
pub open spec fn unexplored_mask(explored: Seq<bool>) -> Seq<bool> {
    Seq::new(explored.len(), |i: int| !explored[i])
}

/// The symbols with the most callers, given each symbol's caller count: at
/// most `MOST_CALLED_SHOWN` of those with any caller, most called first,
/// ties in the order given.
pub fn most_called(calls: &Vec<usize>) -> (r: Vec<usize>)
    ensures
        is_top_ranked(r@, calls@, called_mask(calls@), MOST_CALLED_SHOWN as int),
{
    let mut keep: Vec<bool> = Vec::new();
    let mut i: usize = 0;
    while i < calls.len()
        invariant
            i <= calls.len(),
            keep@ == called_mask(calls@).subrange(0, i as int),
        decreases calls.len() - i,
    {
        keep.push(calls[i] > 0);
        i = i + 1;
    }
    assert(keep@ =~= called_mask(calls@));
    top_by_count(calls, &keep, MOST_CALLED_SHOWN)
}

/// The blind spots of the exploration map, given each symbol's number of
/// callers, its number of incoming edges of any kind, and whether it was
/// ever looked at: at most `BLIND_SPOTS_SHOWN` of them, those with the most
/// incoming edges first, ties in the order given.
pub fn blind_spots(calls: &Vec<usize>, edges_in: &Vec<usize>, explored: &Vec<bool>) -> (r: Vec<usize>)
    requires
        calls.len() == edges_in.len(),
        calls.len() == explored.len(),
    ensures
        is_top_ranked(r@, edges_in@, blind_spot_mask(calls@, explored@), BLIND_SPOTS_SHOWN as int),
{
    let mut keep: Vec<bool> = Vec::new();
    let mut i: usize = 0;
    while i < calls.len()
        invariant
            i <= calls.len(),
            calls.len() == explored.len(),
            keep@ == blind_spot_mask(calls@, explored@).subrange(0, i as int),
        decreases calls.len() - i,
    {
        keep.push(!explored[i] && calls[i] > BLIND_SPOT_MIN_CALLERS);
        i = i + 1;
    }
    assert(keep@ =~= blind_spot_mask(calls@, explored@));
    top_by_count(edges_in, &keep, BLIND_SPOTS_SHOWN)
}

/// What to look at next, given each symbol's number of incoming edges and
/// whether it was ever looked at: at most `limit` of the symbols never
/// looked at, those with the most incoming edges first, ties in the order
/// given.
pub fn suggestions(edges_in: &Vec<usize>, explored: &Vec<bool>, limit: usize) -> (r: Vec<usize>)
    requires
        edges_in.len() == explored.len(),
    ensures
        is_top_ranked(r@, edges_in@, unexplored_mask(explored@), limit as int),
{
    let mut keep: Vec<bool> = Vec::new();
    let mut i: usize = 0;
    while i < explored.len()
        invariant
            i <= explored.len(),
            keep@ == unexplored_mask(explored@).subrange(0, i as int),
        decreases explored.len() - i,
    {
        keep.push(!explored[i]);
        i = i + 1;
    }
    assert(keep@ =~= unexplored_mask(explored@));
    top_by_count(edges_in, &keep, limit)
}

// ── Recording attention ───────────────────────────────────────────────────

/// What was done with a symbol.
#[derive(Debug, Clone, Copy, PartialEq, Eq)]
pub enum AttentionEvent {
    View,
    Query,
    Annotate,
}

/// The event an event name stands for; other names count as no event.
pub open spec fn event_named(name: Seq<char>) -> Option<AttentionEvent> {
    if name == "view"@ {
        Some(AttentionEvent::View)
    } else if name == "query"@ {
        Some(AttentionEvent::Query)
    } else if name == "annotate"@ {
        Some(AttentionEvent::Annotate)
    } else {
        None
    }
}

/// The event an event name stands for.
pub fn attention_event(name: &str) -> (r: Option<AttentionEvent>)
    ensures
        r == event_named(name@),
{
    proof {
        reveal_strlit("view");
        reveal_strlit("query");
        reveal_strlit("annotate");
    }
    if crate::parser::languages::same_text(name, "view") {
        Some(AttentionEvent::View)
    } else if crate::parser::languages::same_text(name, "query") {
        Some(AttentionEvent::Query)
    } else if crate::parser::languages::same_text(name, "annotate") {
        Some(AttentionEvent::Annotate)
    } else {
        None
    }
}

/// How often a symbol was viewed, found by a query, and annotated.
#[derive(Debug, Clone, Copy, PartialEq, Eq)]
pub struct AttentionCounts {
    pub views: u64,
    pub queries: u64,
    pub annotations: u64,
}

/// The importance of a symbol: views, plus twice its queries, plus three
/// times its annotations.
pub open spec fn importance_of(c: AttentionCounts) -> int {
    c.views + 2 * c.queries + 3 * c.annotations
}

/// The counts after one more event.
pub open spec fn recorded(c: AttentionCounts, ev: Option<AttentionEvent>) -> AttentionCounts {
    match ev {
        Some(AttentionEvent::View) => AttentionCounts { views: (c.views + 1) as u64, ..c },
        Some(AttentionEvent::Query) => AttentionCounts { queries: (c.queries + 1) as u64, ..c },
        Some(AttentionEvent::Annotate) => AttentionCounts { annotations: (c.annotations + 1) as u64, ..c },
        None => c,
    }
}

/// What one event adds to the importance.
pub open spec fn event_weight(ev: Option<AttentionEvent>) -> int {
    match ev {
        Some(AttentionEvent::View) => 1,
        Some(AttentionEvent::Query) => 2,
        Some(AttentionEvent::Annotate) => 3,
        None => 0,
    }
}

/// No counter is at its largest value, so one more event can be counted.
pub open spec fn can_record(c: AttentionCounts) -> bool {
    c.views < u64::MAX && c.queries < u64::MAX && c.annotations < u64::MAX
}

impl AttentionCounts {
    /// The importance score.
    pub fn importance(&self) -> (s: u128)
        ensures
            s == importance_of(*self),
    {
        self.views as u128 + 2 * (self.queries as u128) + 3 * (self.annotations as u128)
    }

    /// Counts one more event.
    pub fn record(&mut self, ev: Option<AttentionEvent>)
        requires
            can_record(*old(self)),
        ensures
            *final(self) == recorded(*old(self), ev),
    {
        match ev {
            Some(AttentionEvent::View) => self.views = self.views + 1,
            Some(AttentionEvent::Query) => self.queries = self.queries + 1,
            Some(AttentionEvent::Annotate) => self.annotations = self.annotations + 1,
            None => {},
        }
    }
}

/// Each event raises a symbol's importance by its weight (a view by one, a
/// query by two, an annotation by three), so attention never lowers it.
pub proof fn law_attention_raises_importance(c: AttentionCounts, ev: Option<AttentionEvent>)
    requires
        can_record(c),
    ensures
        importance_of(recorded(c, ev)) == importance_of(c) + event_weight(ev),
        importance_of(recorded(c, ev)) >= importance_of(c),
{
}

} // verus!

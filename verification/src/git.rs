//! Git history records and file ownership computed from blame data.
use vstd::prelude::*;
use crate::parser::languages::same_text;
use crate::text::{decimal, decimal_string, from_chars, push_str, slice_chars, to_chars};

verus! {

/// Blame information for a single line.
#[derive(Debug, Clone)]
pub struct BlameLine {
    pub line: usize,
    pub commit_hash: String,
    pub author: String,
    pub email: String,
    pub timestamp: i64,
    pub summary: String,
}

/// Commit touching a symbol.
#[derive(Debug, Clone)]
pub struct SymbolCommit {
    pub hash: String,
    pub author: String,
    pub email: String,
    pub timestamp: i64,
    pub message: String,
}

/// File ownership entry.
#[derive(Debug, Clone)]
pub struct OwnershipEntry {
    pub author: String,
    pub email: String,
    pub commits: usize,
    pub last_touched: i64,
}

/// The line number recorded for the `i`-th blame hunk that starts at line
/// `start`: `start + i - min(i, start - 1)`, the subtraction saturating.
pub open spec fn blame_line_of(start: int, i: int) -> int {
    let back = if start >= 1 { start - 1 } else { 0 };
    start + i - if i <= back { i } else { back }
}

/// The line number recorded for the `i`-th blame hunk starting at `start`.
pub fn blame_line_number(start: usize, i: usize) -> (r: usize)
    requires
        start + i <= usize::MAX,
    ensures
        r == blame_line_of(start as int, i as int),
{
    let back = start.saturating_sub(1);
    let m = if i <= back { i } else { back };
    start + i - m
}

// ── Ownership model ───────────────────────────────────────────────────────

/// The authors of the first `k` lines, each once, in order of first
/// appearance.
pub open spec fn authors_upto(ls: Seq<BlameLine>, k: int) -> Seq<Seq<char>>
    decreases k,
{
    if k <= 0 {
        seq![]
    } else {
        let prev = authors_upto(ls, k - 1);
        if prev.contains(ls[k - 1].author@) {
            prev
        } else {
            prev.push(ls[k - 1].author@)
        }
    }
}

/// The distinct authors of the blame lines.
pub open spec fn authors(ls: Seq<BlameLine>) -> Seq<Seq<char>> {
    authors_upto(ls, ls.len() as int)
}

/// How many of the first `k` lines `a` wrote.
pub open spec fn lines_by(ls: Seq<BlameLine>, a: Seq<char>, k: int) -> nat
    decreases k,
{
    if k <= 0 {
        0
    } else {
        lines_by(ls, a, k - 1) + if ls[k - 1].author@ == a {
            1nat
        } else {
            0nat
        }
    }
}

/// The latest timestamp among the first `k` lines by `a`, and at least 0.
pub open spec fn last_touch_by(ls: Seq<BlameLine>, a: Seq<char>, k: int) -> i64
    decreases k,
{
    if k <= 0 {
        0
    } else {
        let prev = last_touch_by(ls, a, k - 1);
        if ls[k - 1].author@ == a && ls[k - 1].timestamp > prev {
            ls[k - 1].timestamp
        } else {
            prev
        }
    }
}

/// The e-mail on the first of the first `k` lines by `a`.
pub open spec fn first_email_by(ls: Seq<BlameLine>, a: Seq<char>, k: int) -> Option<Seq<char>>
    decreases k,
{
    if k <= 0 {
        None
    } else {
        match first_email_by(ls, a, k - 1) {
            Some(e) => Some(e),
            None => if ls[k - 1].author@ == a {
                Some(ls[k - 1].email@)
            } else {
                None
            },
        }
    }
}

/// `e` is the ownership of author `e.author` over the first `k` lines.
pub open spec fn is_ownership_upto(e: OwnershipEntry, ls: Seq<BlameLine>, k: int) -> bool {
    &&& first_email_by(ls, e.author@, k) == Some(e.email@)
    &&& e.commits == lines_by(ls, e.author@, k)
    &&& e.last_touched == last_touch_by(ls, e.author@, k)
}

/// `x` comes before `y` in `auth`.
pub open spec fn appears_before(auth: Seq<Seq<char>>, x: Seq<char>, y: Seq<char>) -> bool {
    exists|p: int, q: int| 0 <= p < q < auth.len() && auth[p] == x && auth[q] == y
}

/// `r` is the ownership of a file with blame lines `ls`: one entry per
/// author who wrote a line, with the number of lines, the latest timestamp
/// and the e-mail of the first line, most lines first, and among equal
/// counts the author who appears first in the blame first.
pub open spec fn is_ownership_of(r: Seq<OwnershipEntry>, ls: Seq<BlameLine>) -> bool {
    let n = ls.len() as int;
    &&& r.len() == authors(ls).len()
    &&& forall|i: int| 0 <= i < r.len() ==> is_ownership_upto(#[trigger] r[i], ls, n)
    &&& forall|i: int, j: int| 0 <= i < j < r.len() ==> r[i].author@ != r[j].author@
    &&& forall|a: Seq<char>|
        #[trigger] authors(ls).contains(a) ==> exists|i: int|
            0 <= i < r.len() && (#[trigger] r[i]).author@ == a
    &&& forall|i: int, j: int| 0 <= i < j < r.len() ==> r[i].commits >= r[j].commits
    &&& forall|i: int, j: int|
        0 <= i < j < r.len() && r[i].commits == r[j].commits ==> appears_before(
            authors(ls),
            #[trigger] r[i].author@,
            #[trigger] r[j].author@,
        )
}

// ── Lemmas ────────────────────────────────────────────────────────────────

proof fn lemma_lines_by_bound(ls: Seq<BlameLine>, a: Seq<char>, k: int)
    requires
        0 <= k,
    ensures
        lines_by(ls, a, k) <= k,
    decreases k,
{
    if k > 0 {
        lemma_lines_by_bound(ls, a, k - 1);
    }
}

proof fn lemma_push_contains(prev: Seq<Seq<char>>, x: Seq<char>, a: Seq<char>)
    ensures
        prev.push(x).contains(a) <==> (prev.contains(a) || a == x),
{
    if prev.push(x).contains(a) && a != x {
        let j = choose|j: int| 0 <= j < prev.len() + 1 && #[trigger] prev.push(x)[j] == a;
        assert(prev[j] == a);
    }
    if prev.contains(a) {
        let j = choose|j: int| 0 <= j < prev.len() && #[trigger] prev[j] == a;
        assert(prev.push(x)[j] == a);
    }
    if a == x {
        assert(prev.push(x)[prev.len() as int] == a);
    }
}

proof fn lemma_authors_have_lines(ls: Seq<BlameLine>, a: Seq<char>, k: int)
    requires
        0 <= k <= ls.len(),
    ensures
        authors_upto(ls, k).contains(a) <==> first_email_by(ls, a, k) is Some,
        !authors_upto(ls, k).contains(a) ==> lines_by(ls, a, k) == 0 && last_touch_by(ls, a, k)
            == 0,
    decreases k,
{
    if k > 0 {
        lemma_authors_have_lines(ls, a, k - 1);
        let x = ls[k - 1].author@;
        let prev = authors_upto(ls, k - 1);
        lemma_push_contains(prev, x, a);
        lemma_push_contains(prev, x, x);
        assert(authors_upto(ls, k).contains(x));
    }
}

proof fn lemma_authors_distinct(ls: Seq<BlameLine>, k: int)
    requires
        0 <= k <= ls.len(),
    ensures
        forall|i: int, j: int|
            0 <= i < j < authors_upto(ls, k).len() ==> authors_upto(ls, k)[i] != authors_upto(
                ls,
                k,
            )[j],
    decreases k,
{
    if k > 0 {
        lemma_authors_distinct(ls, k - 1);
        let x = ls[k - 1].author@;
        let prev = authors_upto(ls, k - 1);
        if !prev.contains(x) {
            assert forall|i: int, j: int|
                0 <= i < j < prev.push(x).len() implies prev.push(x)[i] != prev.push(x)[j] by {
                if j == prev.len() {
                    assert(prev.push(x)[i] == prev[i]);
                }
            }
        }
    }
}

/// Every entry is its author's ownership.
#[verifier::opaque]
spec fn all_owned(out: Seq<OwnershipEntry>, ls: Seq<BlameLine>) -> bool {
    forall|j: int| 0 <= j < out.len() ==> is_ownership_upto(#[trigger] out[j], ls, ls.len() as int)
}

/// The entries' authors are exactly `auth[0..i]`, each once.
#[verifier::opaque]
spec fn covers(out: Seq<OwnershipEntry>, auth: Seq<Seq<char>>, i: int) -> bool {
    &&& forall|j: int|
        0 <= j < out.len() ==> exists|q: int| 0 <= q < i && (#[trigger] out[j]).author@ == auth[q]
    &&& forall|q: int|
        #![trigger auth[q]]
        0 <= q < i ==> exists|j: int| 0 <= j < out.len() && (#[trigger] out[j]).author@ == auth[q]
    &&& forall|a: int, b: int| 0 <= a < b < out.len() ==> out[a].author@ != out[b].author@
}

proof fn lemma_insert_owned(before: Seq<OwnershipEntry>, p: int, e: OwnershipEntry, ls: Seq<BlameLine>)
    requires
        0 <= p <= before.len(),
        is_ownership_upto(e, ls, ls.len() as int),
        all_owned(before, ls),
    ensures
        all_owned(before.insert(p, e), ls),
{
    reveal(all_owned);
    let out = before.insert(p, e);
    assert forall|j: int| 0 <= j < out.len() implies is_ownership_upto(
        #[trigger] out[j],
        ls,
        ls.len() as int,
    ) by {
        if j < p {
            assert(out[j] == before[j]);
        } else if j > p {
            assert(out[j] == before[j - 1]);
        }
    }
}

#[verifier::spinoff_prover]
proof fn lemma_insert_step(
    before: Seq<OwnershipEntry>,
    p: int,
    e: OwnershipEntry,
    auth: Seq<Seq<char>>,
    i: int,
)
    requires
        0 <= p <= before.len(),
        0 <= i < auth.len(),
        e.author@ == auth[i],
        forall|a: int, b: int| 0 <= a < b < auth.len() ==> auth[a] != auth[b],
        covers(before, auth, i),
    ensures
        covers(before.insert(p, e), auth, i + 1),
{
    reveal(covers);
    let out = before.insert(p, e);
    assert forall|j: int| 0 <= j < out.len() implies exists|q: int|
        0 <= q < i + 1 && (#[trigger] out[j]).author@ == auth[q] by {
        if j < p {
            assert(out[j] == before[j]);
        } else if j > p {
            assert(out[j] == before[j - 1]);
        } else {
            assert(out[j].author@ == auth[i]);
        }
    }
    assert forall|q: int| #![trigger auth[q]] 0 <= q < i + 1 implies exists|j: int|
        0 <= j < out.len() && (#[trigger] out[j]).author@ == auth[q] by {
        if q == i {
            assert(out[p].author@ == auth[q]);
        } else {
            let j = choose|j: int| 0 <= j < before.len() && (#[trigger] before[j]).author@ == auth[q];
            if j < p {
                assert(out[j] == before[j]);
            } else {
                assert(out[j + 1] == before[j]);
            }
        }
    }
    lemma_insert_distinct(before, p, e, auth, i);
}

#[verifier::spinoff_prover]
proof fn lemma_insert_distinct(
    before: Seq<OwnershipEntry>,
    p: int,
    e: OwnershipEntry,
    auth: Seq<Seq<char>>,
    i: int,
)
    requires
        0 <= p <= before.len(),
        0 <= i < auth.len(),
        e.author@ == auth[i],
        forall|a: int, b: int| 0 <= a < b < auth.len() ==> auth[a] != auth[b],
        covers(before, auth, i),
    ensures
        forall|a: int, b: int|
            0 <= a < b < before.insert(p, e).len() ==> before.insert(p, e)[a].author@
                != before.insert(p, e)[b].author@,
{
    reveal(covers);
    let out = before.insert(p, e);
    assert forall|a: int, b: int| 0 <= a < b < out.len() implies out[a].author@ != out[b].author@ by {
        if a == p {
            assert(out[b] == before[b - 1]);
            let qb = choose|q: int| 0 <= q < i && (#[trigger] before[b - 1]).author@ == auth[q];
        } else if b == p {
            assert(out[a] == before[a]);
            let qa = choose|q: int| 0 <= q < i && (#[trigger] before[a]).author@ == auth[q];
        } else {
            let ia = if a < p { a } else { a - 1 };
            let ib = if b < p { b } else { b - 1 };
            assert(out[a] == before[ia]);
            assert(out[b] == before[ib]);
        }
    }
}

/// Among entries with equal counts, the earlier author in `auth` comes
/// first.
spec fn ties_in_order(out: Seq<OwnershipEntry>, auth: Seq<Seq<char>>) -> bool {
    forall|a: int, b: int|
        0 <= a < b < out.len() && out[a].commits == out[b].commits ==> appears_before(
            auth,
            #[trigger] out[a].author@,
            #[trigger] out[b].author@,
        )
}

proof fn lemma_insert_ties(
    before: Seq<OwnershipEntry>,
    p: int,
    e: OwnershipEntry,
    auth: Seq<Seq<char>>,
    i: int,
)
    requires
        0 <= p <= before.len(),
        0 <= i < auth.len(),
        e.author@ == auth[i],
        covers(before, auth, i),
        ties_in_order(before, auth),
        forall|j: int| 0 <= j < p ==> before[j].commits >= e.commits,
        forall|j: int| p <= j < before.len() ==> before[j].commits < e.commits,
    ensures
        ties_in_order(before.insert(p, e), auth),
{
    reveal(covers);
    let out = before.insert(p, e);
    assert forall|a: int, b: int|
        0 <= a < b < out.len() && out[a].commits == out[b].commits implies appears_before(
        auth,
        #[trigger] out[a].author@,
        #[trigger] out[b].author@,
    ) by {
        if a == p {
            assert(out[b] == before[b - 1]);
        } else if b == p {
            assert(out[a] == before[a]);
            let qa = choose|q: int| 0 <= q < i && (#[trigger] before[a]).author@ == auth[q];
            assert(0 <= qa < i < auth.len() && auth[qa] == out[a].author@ && auth[i] == out[b].author@);
        } else {
            let ia = if a < p { a } else { a - 1 };
            let ib = if b < p { b } else { b - 1 };
            assert(out[a] == before[ia]);
            assert(out[b] == before[ib]);
            assert(appears_before(auth, before[ia].author@, before[ib].author@));
        }
    }
}

proof fn lemma_covers_all(out: Seq<OwnershipEntry>, auth: Seq<Seq<char>>)
    requires
        covers(out, auth, auth.len() as int),
    ensures
        forall|a: int, b: int| 0 <= a < b < out.len() ==> out[a].author@ != out[b].author@,
        forall|a: Seq<char>|
            #[trigger] auth.contains(a) ==> exists|j: int| 0 <= j < out.len() && (#[trigger] out[j]).author@ == a,
{
    reveal(covers);
    assert forall|a: Seq<char>| #[trigger] auth.contains(a) implies exists|j: int|
        0 <= j < out.len() && (#[trigger] out[j]).author@ == a by {
        let q = choose|q: int| 0 <= q < auth.len() && auth[q] == a;
        let j = choose|j: int| 0 <= j < out.len() && (#[trigger] out[j]).author@ == auth[q];
    }
}

// ── Every line is owned once ──────────────────────────────────────────────

/// The lines owned by all entries together.
pub open spec fn total_commits(r: Seq<OwnershipEntry>) -> nat
    decreases r.len(),
{
    if r.len() == 0 {
        0
    } else {
        total_commits(r.drop_last()) + r.last().commits as nat
    }
}

/// How many of the first `k` lines the entries' authors wrote, summed over
/// the entries.
spec fn lines_by_all(r: Seq<OwnershipEntry>, ls: Seq<BlameLine>, k: int) -> nat
    decreases r.len(),
{
    if r.len() == 0 {
        0
    } else {
        lines_by_all(r.drop_last(), ls, k) + lines_by(ls, r.last().author@, k)
    }
}

/// Some entry is by author `a`.
spec fn has_entry(r: Seq<OwnershipEntry>, a: Seq<char>) -> bool {
    exists|i: int| 0 <= i < r.len() && (#[trigger] r[i]).author@ == a
}

/// Authors of distinct entries differ.
spec fn distinct_authors(r: Seq<OwnershipEntry>) -> bool {
    forall|i: int, j: int| 0 <= i < j < r.len() ==> r[i].author@ != r[j].author@
}

/// One more line adds one to the sum when its author has an entry, and
/// nothing otherwise.
proof fn lemma_lines_by_all_step(r: Seq<OwnershipEntry>, ls: Seq<BlameLine>, k: int)
    requires
        0 < k <= ls.len(),
        distinct_authors(r),
    ensures
        lines_by_all(r, ls, k) == lines_by_all(r, ls, k - 1) + if has_entry(r, ls[k - 1].author@) {
            1nat
        } else {
            0nat
        },
    decreases r.len(),
{
    if r.len() > 0 {
        let front = r.drop_last();
        assert(distinct_authors(front)) by {
            assert forall|i: int, j: int| 0 <= i < j < front.len() implies front[i].author@ != front[j].author@ by {
                assert(front[i] == r[i] && front[j] == r[j]);
            }
        }
        lemma_lines_by_all_step(front, ls, k);
        let x = ls[k - 1].author@;
        let in_r = has_entry(r, x);
        let in_front = has_entry(front, x);
        if r.last().author@ == x {
            assert(r[r.len() - 1].author@ == x);
            assert(!in_front) by {
                if in_front {
                    let i = choose|i: int| 0 <= i < front.len() && (#[trigger] front[i]).author@ == x;
                    assert(r[i].author@ == x);
                }
            }
        } else {
            assert(in_r == in_front) by {
                if in_r {
                    let i = choose|i: int| 0 <= i < r.len() && (#[trigger] r[i]).author@ == x;
                    assert(i < front.len());
                    assert(front[i] == r[i]);
                }
                if in_front {
                    let i = choose|i: int| 0 <= i < front.len() && (#[trigger] front[i]).author@ == x;
                    assert(r[i] == front[i]);
                }
            }
        }
    }
}

/// Each of the first `k` lines has its author among the authors so far.
proof fn lemma_line_authors_listed(ls: Seq<BlameLine>, k: int, j: int)
    requires
        0 <= j < k <= ls.len(),
    ensures
        authors_upto(ls, k).contains(ls[j].author@),
    decreases k,
{
    let prev = authors_upto(ls, k - 1);
    let x = ls[k - 1].author@;
    if j < k - 1 {
        lemma_line_authors_listed(ls, k - 1, j);
        lemma_push_contains(prev, x, ls[j].author@);
    } else {
        lemma_push_contains(prev, x, x);
    }
}

/// When the entries' authors are distinct and include every author of the
/// first `k` lines, the entries' line counts add up to `k`.
proof fn lemma_lines_by_all_total(r: Seq<OwnershipEntry>, ls: Seq<BlameLine>, k: int)
    requires
        0 <= k <= ls.len(),
        distinct_authors(r),
        forall|j: int| 0 <= j < k ==> #[trigger] has_entry(r, ls[j].author@),
    ensures
        lines_by_all(r, ls, k) == k,
    decreases k,
{
    if k == 0 {
        lemma_lines_by_all_zero(r, ls);
    } else {
        lemma_lines_by_all_total(r, ls, k - 1);
        lemma_lines_by_all_step(r, ls, k);
        assert(has_entry(r, ls[k - 1].author@));
    }
}

proof fn lemma_lines_by_all_zero(r: Seq<OwnershipEntry>, ls: Seq<BlameLine>)
    ensures
        lines_by_all(r, ls, 0) == 0,
    decreases r.len(),
{
    if r.len() > 0 {
        lemma_lines_by_all_zero(r.drop_last(), ls);
    }
}

proof fn lemma_total_is_lines_by_all(r: Seq<OwnershipEntry>, ls: Seq<BlameLine>)
    requires
        forall|i: int| 0 <= i < r.len() ==> is_ownership_upto(#[trigger] r[i], ls, ls.len() as int),
    ensures
        total_commits(r) == lines_by_all(r, ls, ls.len() as int),
    decreases r.len(),
{
    if r.len() > 0 {
        let front = r.drop_last();
        assert forall|i: int| 0 <= i < front.len() implies is_ownership_upto(#[trigger] front[i], ls, ls.len() as int) by {
            assert(front[i] == r[i]);
        }
        lemma_total_is_lines_by_all(front, ls);
        assert(is_ownership_upto(r[r.len() - 1], ls, ls.len() as int));
    }
}

/// Ownership accounts for every blamed line exactly once: the line counts of
/// the entries add up to the number of lines.
pub proof fn law_ownership_counts_every_line(r: Seq<OwnershipEntry>, ls: Seq<BlameLine>)
    requires
        is_ownership_of(r, ls),
    ensures
        total_commits(r) == ls.len(),
{
    let n = ls.len() as int;
    assert forall|j: int| 0 <= j < n implies #[trigger] has_entry(r, ls[j].author@) by {
        lemma_line_authors_listed(ls, n, j);
        assert(authors(ls).contains(ls[j].author@));
    }
    lemma_lines_by_all_total(r, ls, n);
    lemma_total_is_lines_by_all(r, ls);
}

// ── Executable ────────────────────────────────────────────────────────────

/// Index of the entry of author `a`, if any.
fn entry_index(entries: &Vec<OwnershipEntry>, a: &str) -> (r: Option<usize>)
    ensures
        match r {
            Some(i) => i < entries.len() && entries@[i as int].author@ == a@,
            None => forall|i: int| 0 <= i < entries.len() ==> entries@[i].author@ != a@,
        },
{
    let mut i: usize = 0;
    while i < entries.len()
        invariant
            i <= entries.len(),
            forall|j: int| 0 <= j < i ==> entries@[j].author@ != a@,
        decreases entries.len() - i,
    {
        if same_text(entries[i].author.as_str(), a) {
            return Some(i);
        }
        i = i + 1;
    }
    None
}

/// `out` with `e` inserted after the last entry with at least as many
/// lines.
fn insert_by_commits(out: &mut Vec<OwnershipEntry>, e: OwnershipEntry) -> (p: usize)
    requires
        forall|i: int, j: int| 0 <= i < j < old(out).len() ==> old(out)@[i].commits >= old(out)@[j].commits,
    ensures
        final(out)@.len() == old(out)@.len() + 1,
        forall|i: int, j: int| 0 <= i < j < final(out).len() ==> final(out)@[i].commits >= final(out)@[j].commits,
        p <= old(out).len(),
        final(out)@ == old(out)@.insert(p as int, e),
        forall|j: int| 0 <= j < p ==> old(out)@[j].commits >= e.commits,
        forall|j: int| p <= j < old(out).len() ==> old(out)@[j].commits < e.commits,
{
    let mut p: usize = 0;
    while p < out.len() && out[p].commits >= e.commits
        invariant
            p <= out.len(),
            forall|j: int| 0 <= j < p ==> out@[j].commits >= e.commits,
        decreases out.len() - p,
    {
        p = p + 1;
    }
    let ghost before = out@;
    proof {
        if p < before.len() {
            assert forall|j: int| p <= j < before.len() implies before[j].commits < e.commits by {
                if j > p {
                    assert(before[p as int].commits >= before[j].commits);
                }
            }
        }
    }
    out.insert(p, e);
    assert(out@ == before.insert(p as int, e));
    p
}

/// A copy of an ownership entry.
fn copy_entry(e: &OwnershipEntry) -> (r: OwnershipEntry)
    ensures
        r.author@ == e.author@,
        r.email@ == e.email@,
        r.commits == e.commits,
        r.last_touched == e.last_touched,
{
    OwnershipEntry {
        author: e.author.clone(),
        email: e.email.clone(),
        commits: e.commits,
        last_touched: e.last_touched,
    }
}

/// Compute file ownership from blame data.
pub fn compute_ownership(blame_lines: &[BlameLine]) -> (r: Vec<OwnershipEntry>)
    ensures
        is_ownership_of(r@, blame_lines@),
{
    let ghost ls = blame_lines@;
    let mut entries: Vec<OwnershipEntry> = Vec::new();
    let mut k: usize = 0;
    while k < blame_lines.len()
        invariant
            k <= blame_lines.len(),
            ls == blame_lines@,
            entries@.len() == authors_upto(ls, k as int).len(),
            forall|i: int|
                0 <= i < entries@.len() ==> (#[trigger] entries@[i]).author@ == authors_upto(
                    ls,
                    k as int,
                )[i] && is_ownership_upto(entries@[i], ls, k as int),
        decreases blame_lines.len() - k,
    {
        let line = &blame_lines[k];
        let ghost prev = authors_upto(ls, k as int);
        proof {
            lemma_lines_by_bound(ls, line.author@, k as int);
        }
        match entry_index(&entries, line.author.as_str()) {
            Some(i) => {
                assert(prev.contains(line.author@)) by {
                    assert(prev[i as int] == line.author@);
                }
                let commits = entries[i].commits + 1;
                let last = if line.timestamp > entries[i].last_touched {
                    line.timestamp
                } else {
                    entries[i].last_touched
                };
                let e = OwnershipEntry {
                    author: line.author.clone(),
                    email: entries[i].email.clone(),
                    commits,
                    last_touched: last,
                };
                let ghost before = entries@;
                entries.set(i, e);
                assert forall|j: int| 0 <= j < entries@.len() implies (#[trigger] entries@[j]).author@
                    == authors_upto(ls, k + 1)[j] && is_ownership_upto(entries@[j], ls, k + 1) by {
                    if j != i {
                        assert(before[j].author@ != line.author@) by {
                            lemma_authors_distinct(ls, k as int);
                        }
                    }
                }
            },
            None => {
                assert(!prev.contains(line.author@)) by {
                    if prev.contains(line.author@) {
                        let j = choose|j: int| 0 <= j < prev.len() && prev[j] == line.author@;
                        assert(entries@[j].author@ == line.author@);
                    }
                }
                proof {
                    lemma_authors_have_lines(ls, line.author@, k as int);
                }
                let last = if line.timestamp > 0 {
                    line.timestamp
                } else {
                    0
                };
                let e = OwnershipEntry {
                    author: line.author.clone(),
                    email: line.email.clone(),
                    commits: 1,
                    last_touched: last,
                };
                let ghost before = entries@;
                entries.push(e);
                assert forall|j: int| 0 <= j < entries@.len() implies (#[trigger] entries@[j]).author@
                    == authors_upto(ls, k + 1)[j] && is_ownership_upto(entries@[j], ls, k + 1) by {
                    if j < before.len() {
                        assert(before[j].author@ != line.author@);
                    }
                }
            },
        }
        k = k + 1;
    }
    let ghost n = ls.len() as int;
    proof {
        lemma_authors_distinct(ls, n);
    }
    let mut out: Vec<OwnershipEntry> = Vec::new();
    proof {
        reveal(all_owned);
        reveal(covers);
    }
    let mut i: usize = 0;
    while i < entries.len()
        invariant
            i <= entries.len(),
            n == ls.len(),
            entries@.len() == authors(ls).len(),
            forall|j: int|
                0 <= j < entries@.len() ==> (#[trigger] entries@[j]).author@ == authors(ls)[j]
                    && is_ownership_upto(entries@[j], ls, n),
            forall|a: int, b: int| 0 <= a < b < authors(ls).len() ==> authors(ls)[a] != authors(ls)[b],
            out@.len() == i,
            all_owned(out@, ls),
            covers(out@, authors(ls), i as int),
            forall|a: int, b: int| 0 <= a < b < out@.len() ==> out@[a].commits >= out@[b].commits,
            ties_in_order(out@, authors(ls)),
        decreases entries.len() - i,
    {
        let e = copy_entry(&entries[i]);
        let ghost before = out@;
        let p = insert_by_commits(&mut out, e);
        proof {
            lemma_insert_owned(before, p as int, e, ls);
            lemma_insert_ties(before, p as int, e, authors(ls), i as int);
            lemma_insert_step(before, p as int, e, authors(ls), i as int);
        }
        i = i + 1;
    }
    proof {
        lemma_covers_all(out@, authors(ls));
        reveal(all_owned);
    }
    out
}

// ── Blame report ──────────────────────────────────────────────────────────

/// How many blamed lines the blame report lists.
pub const BLAME_LINES_SHOWN: usize = 50;

/// How many characters of a commit hash the blame report shows.
pub const SHORT_HASH_LEN: usize = 7;

/// The first `SHORT_HASH_LEN` characters of a hash, or all of a shorter one.
pub open spec fn short_hash(h: Seq<char>) -> Seq<char> {
    if h.len() <= SHORT_HASH_LEN {
        h
    } else {
        h.subrange(0, SHORT_HASH_LEN as int)
    }
}

/// One line of the blame report.
pub open spec fn blame_entry(l: BlameLine) -> Seq<char> {
    "  L"@ + decimal(l.line as nat) + ": "@ + l.author@ + " ("@ + short_hash(l.commit_hash@) + ") "@
        + l.summary@ + "\n"@
}

/// The report lines of the first `k` blamed lines.
pub open spec fn blame_entries(ls: Seq<BlameLine>, k: int) -> Seq<char>
    decreases k,
{
    if k <= 0 {
        seq![]
    } else {
        blame_entries(ls, k - 1) + blame_entry(ls[k - 1])
    }
}

/// The blame report of a file: its first `BLAME_LINES_SHOWN` blamed lines,
/// then how many more there are, if any.
pub open spec fn blame_report_of(file: Seq<char>, ls: Seq<BlameLine>) -> Seq<char> {
    if ls.len() == 0 {
        "No blame data for '"@ + file + "'"@
    } else if ls.len() <= BLAME_LINES_SHOWN {
        "Blame for "@ + file + ":\n"@ + blame_entries(ls, ls.len() as int)
    } else {
        "Blame for "@ + file + ":\n"@ + blame_entries(ls, BLAME_LINES_SHOWN as int) + "  ... and "@
            + decimal((ls.len() - BLAME_LINES_SHOWN) as nat) + " more lines\n"@
    }
}

/// The short form of a commit hash.
fn short_hash_of(h: &str) -> (r: String)
    ensures
        r@ == short_hash(h@),
{
    let v = to_chars(h);
    if v.len() <= SHORT_HASH_LEN {
        h.to_string()
    } else {
        from_chars(slice_chars(v.as_slice(), 0, SHORT_HASH_LEN).as_slice())
    }
}

fn push_blame_entry(out: &mut String, l: &BlameLine)
    ensures
        final(out)@ == old(out)@ + blame_entry(*l),
{
    proof {
        reveal_strlit("  L");
        reveal_strlit(": ");
        reveal_strlit(" (");
        reveal_strlit(") ");
        reveal_strlit("\n");
    }
    push_str(out, "  L");
    push_str(out, decimal_string(l.line).as_str());
    push_str(out, ": ");
    push_str(out, l.author.as_str());
    push_str(out, " (");
    push_str(out, short_hash_of(l.commit_hash.as_str()).as_str());
    push_str(out, ") ");
    push_str(out, l.summary.as_str());
    push_str(out, "\n");
}

/// The blame report of a file, given its blamed lines.
pub fn format_blame(file: &str, lines: &Vec<BlameLine>) -> (r: String)
    ensures
        r@ == blame_report_of(file@, lines@),
{
    proof {
        reveal_strlit("No blame data for '");
        reveal_strlit("'");
        reveal_strlit("Blame for ");
        reveal_strlit(":\n");
        reveal_strlit("  ... and ");
        reveal_strlit(" more lines\n");
    }
    let mut out = String::new();
    if lines.len() == 0 {
        push_str(&mut out, "No blame data for '");
        push_str(&mut out, file);
        push_str(&mut out, "'");
        return out;
    }
    push_str(&mut out, "Blame for ");
    push_str(&mut out, file);
    push_str(&mut out, ":\n");
    let ghost head = out@;
    let shown = if lines.len() < BLAME_LINES_SHOWN { lines.len() } else { BLAME_LINES_SHOWN };
    let mut i: usize = 0;
    while i < shown
        invariant
            i <= shown,
            shown <= lines.len(),
            out@ == head + blame_entries(lines@, i as int),
        decreases shown - i,
    {
        push_blame_entry(&mut out, &lines[i]);
        assert(out@ =~= head + blame_entries(lines@, i + 1));
        i = i + 1;
    }
    if lines.len() > BLAME_LINES_SHOWN {
        push_str(&mut out, "  ... and ");
        push_str(&mut out, decimal_string(lines.len() - BLAME_LINES_SHOWN).as_str());
        push_str(&mut out, " more lines\n");
    }
    out
}

// ── Ownership report ──────────────────────────────────────────────────────

/// One line of the ownership report; counts from blame are lines, stored
/// counts are contributions.
pub open spec fn ownership_entry_text(e: OwnershipEntry, from_blame: bool) -> Seq<char> {
    "  "@ + e.author@ + " ("@ + e.email@ + ") — "@ + decimal(e.commits as nat) + if from_blame {
        " lines\n"@
    } else {
        " contributions\n"@
    }
}

/// The report lines of the first `k` entries.
pub open spec fn ownership_entries_text(es: Seq<OwnershipEntry>, from_blame: bool, k: int) -> Seq<char>
    decreases k,
{
    if k <= 0 {
        seq![]
    } else {
        ownership_entries_text(es, from_blame, k - 1) + ownership_entry_text(es[k - 1], from_blame)
    }
}

/// The ownership report of a file, one line per owner in the order given,
/// saying whether the counts were just computed from blame.
pub open spec fn ownership_report_of(file: Seq<char>, es: Seq<OwnershipEntry>, from_blame: bool) -> Seq<char> {
    "Ownership of "@ + file + if from_blame {
        " (from blame):\n"@
    } else {
        ":\n"@
    } + ownership_entries_text(es, from_blame, es.len() as int)
}

fn push_ownership_entry(out: &mut String, e: &OwnershipEntry, from_blame: bool)
    ensures
        final(out)@ == old(out)@ + ownership_entry_text(*e, from_blame),
{
    proof {
        reveal_strlit("  ");
        reveal_strlit(" (");
        reveal_strlit(") — ");
        reveal_strlit(" lines\n");
        reveal_strlit(" contributions\n");
    }
    push_str(out, "  ");
    push_str(out, e.author.as_str());
    push_str(out, " (");
    push_str(out, e.email.as_str());
    push_str(out, ") — ");
    push_str(out, decimal_string(e.commits).as_str());
    if from_blame {
        push_str(out, " lines\n");
    } else {
        push_str(out, " contributions\n");
    }
}

/// The ownership report of a file.
pub fn format_ownership(file: &str, entries: &Vec<OwnershipEntry>, from_blame: bool) -> (r: String)
    ensures
        r@ == ownership_report_of(file@, entries@, from_blame),
{
    proof {
        reveal_strlit("Ownership of ");
        reveal_strlit(" (from blame):\n");
        reveal_strlit(":\n");
    }
    let mut out = String::new();
    push_str(&mut out, "Ownership of ");
    push_str(&mut out, file);
    if from_blame {
        push_str(&mut out, " (from blame):\n");
    } else {
        push_str(&mut out, ":\n");
    }
    let ghost head = out@;
    let mut i: usize = 0;
    while i < entries.len()
        invariant
            i <= entries.len(),
            out@ == head + ownership_entries_text(entries@, from_blame, i as int),
        decreases entries.len() - i,
    {
        push_ownership_entry(&mut out, &entries[i], from_blame);
        assert(out@ =~= head + ownership_entries_text(entries@, from_blame, i + 1));
        i = i + 1;
    }
    out
}

// ── Commits touching a file ───────────────────────────────────────────────

/// One change of a diff between two trees: the file's path before and after
/// the change, where there is one.
#[derive(Debug)]
pub struct DeltaPaths {
    pub old_path: Option<String>,
    pub new_path: Option<String>,
}

/// A change concerns a file when its path before or after is that file.
pub open spec fn delta_touches(d: DeltaPaths, file: Seq<char>) -> bool {
    (d.new_path matches Some(p) && p@ == file) || (d.old_path matches Some(p) && p@ == file)
}

fn path_is(p: &Option<String>, file: &str) -> (b: bool)
    ensures
        b == (p matches Some(q) && q@ == file@),
{
    match p {
        Some(q) => same_text(q.as_str(), file),
        None => false,
    }
}

/// Whether a diff changes the file: whether any of its changes concerns it.
pub fn touches_file(deltas: &Vec<DeltaPaths>, file: &str) -> (b: bool)
    ensures
        b == exists|i: int| 0 <= i < deltas.len() && #[trigger] delta_touches(deltas@[i], file@),
{
    let mut i: usize = 0;
    while i < deltas.len()
        invariant
            i <= deltas.len(),
            forall|j: int| 0 <= j < i ==> !#[trigger] delta_touches(deltas@[j], file@),
        decreases deltas.len() - i,
    {
        if path_is(&deltas[i].new_path, file) || path_is(&deltas[i].old_path, file) {
            assert(delta_touches(deltas@[i as int], file@));
            return true;
        }
        i = i + 1;
    }
    false
}

} // verus!

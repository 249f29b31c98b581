//! Reasoning over the graph: contradictory annotations, exact code clones,
//! and labels for groups of symbols.
use vstd::prelude::*;
use vstd::utf8::{encode_utf8, is_char_boundary};
use crate::graph::SymbolRow;
use crate::parser::extract::{text_in, text_slice};
use crate::parser::languages::same_text;
use crate::text::{contains, contains_chars, from_chars, push_str, slice_chars, strip_suffixes, to_chars, trim_end_matches, utf8_len};

verus! {

// ── Annotations ───────────────────────────────────────────────────────────

/// An annotation as reasoning reads it (its confidence is not needed).
#[derive(Debug, Clone)]
pub struct AnnotationView {
    pub id: i64,
    pub annotation_type: String,
    pub content: String,
    pub status: String,
}

/// A detected contradiction between two annotations.
#[derive(Debug, Clone)]
pub struct Contradiction {
    pub symbol_id: String,
    pub annotation_a_id: i64,
    pub annotation_b_id: i64,
    pub reason: String,
}

/// What `str::to_lowercase` gives for a text (Unicode lowercase mapping).
pub uninterp spec fn lowercase_of(s: Seq<char>) -> Seq<char>;

/// `str::to_lowercase`.
#[verifier::external_body]
fn to_lowercase(s: &str) -> (r: String)
    ensures
        r@ == lowercase_of(s@),
{
    s.to_lowercase()
}

/// Number of keyword pairs that signal a contradiction.
pub const CONTRADICTION_PAIR_COUNT: usize = 18;

/// The keyword pairs that suggest two statements conflict.
pub open spec fn contradiction_pair(k: int) -> (Seq<char>, Seq<char>) {
    if k == 0 {
        ("always"@, "never"@)
    } else if k == 1 {
        ("always"@, "sometimes"@)
    } else if k == 2 {
        ("true"@, "false"@)
    } else if k == 3 {
        ("returns true"@, "returns false"@)
    } else if k == 4 {
        ("mutable"@, "immutable"@)
    } else if k == 5 {
        ("synchronous"@, "asynchronous"@)
    } else if k == 6 {
        ("sync"@, "async"@)
    } else if k == 7 {
        ("safe"@, "unsafe"@)
    } else if k == 8 {
        ("pure"@, "impure"@)
    } else if k == 9 {
        ("stateless"@, "stateful"@)
    } else if k == 10 {
        ("required"@, "optional"@)
    } else if k == 11 {
        ("deprecated"@, "recommended"@)
    } else if k == 12 {
        ("public"@, "private"@)
    } else if k == 13 {
        ("todo"@, "done"@)
    } else if k == 14 {
        ("broken"@, "working"@)
    } else if k == 15 {
        ("slow"@, "fast"@)
    } else if k == 16 {
        ("should not"@, "must"@)
    } else {
        ("do not"@, "always"@)
    }
}

fn contradiction_pair_exec(k: usize) -> (r: (&'static str, &'static str))
    requires
        k < CONTRADICTION_PAIR_COUNT,
    ensures
        (r.0@, r.1@) == contradiction_pair(k as int),
{
    match k {
        0 => ("always", "never"),
        1 => ("always", "sometimes"),
        2 => ("true", "false"),
        3 => ("returns true", "returns false"),
        4 => ("mutable", "immutable"),
        5 => ("synchronous", "asynchronous"),
        6 => ("sync", "async"),
        7 => ("safe", "unsafe"),
        8 => ("pure", "impure"),
        9 => ("stateless", "stateful"),
        10 => ("required", "optional"),
        11 => ("deprecated", "recommended"),
        12 => ("public", "private"),
        13 => ("todo", "done"),
        14 => ("broken", "working"),
        15 => ("slow", "fast"),
        16 => ("should not", "must"),
        _ => ("do not", "always"),
    }
}

/// Two lowercased texts conflict on pair `k`: one holds one keyword and the
/// other the other.
pub open spec fn conflicts_on(la: Seq<char>, lb: Seq<char>, k: int) -> bool {
    let (w1, w2) = contradiction_pair(k);
    (contains(la, w1) && contains(lb, w2)) || (contains(la, w2) && contains(lb, w1))
}

/// The first pair from `k` on that two lowercased texts conflict on.
pub open spec fn first_conflict(la: Seq<char>, lb: Seq<char>, k: int) -> Option<int>
    decreases CONTRADICTION_PAIR_COUNT - k,
{
    if k < 0 || k >= CONTRADICTION_PAIR_COUNT {
        None
    } else if conflicts_on(la, lb, k) {
        Some(k)
    } else {
        first_conflict(la, lb, k + 1)
    }
}

/// `s` cut to `max` bytes can be taken: it is short enough, or byte `max`
/// starts a character.
pub open spec fn truncatable(s: Seq<char>, max: int) -> bool {
    utf8_len(s) <= max || is_char_boundary(encode_utf8(s), max)
}

/// `s` itself when at most `max` bytes long, else its first `max` bytes
/// followed by `...`.
pub open spec fn truncated(s: Seq<char>, max: int) -> Seq<char> {
    if utf8_len(s) <= max {
        s
    } else {
        match text_in(s, 0, max) {
            Some(t) => t + "..."@,
            None => seq![],
        }
    }
}

/// `s` shortened to at most `max` bytes plus an ellipsis.
pub fn truncate(s: &str, max: usize) -> (r: String)
    requires
        truncatable(s@, max as int),
    ensures
        r@ == truncated(s@, max as int),
{
    proof {
        vstd::utf8::encode_utf8_valid_utf8(s@);
        vstd::utf8::is_char_boundary_start_end_of_seq(encode_utf8(s@));
    }
    if s.len() <= max {
        return s.to_owned();
    }
    match text_slice(s, 0, max) {
        Some(t) => {
            let mut out = t;
            push_str(&mut out, "...");
            proof {
                reveal_strlit("...");
            }
            out
        },
        None => String::new(),
    }
}

/// The reason recorded for a contradiction.
pub open spec fn reason_of(a: Seq<char>, b: Seq<char>, w1: Seq<char>, w2: Seq<char>) -> Seq<char> {
    "Possible contradiction: '"@ + truncated(a, 50) + "' vs '"@ + truncated(b, 50)
        + "' (keywords: "@ + w1 + " / "@ + w2 + ")"@
}

/// The active annotations, in order.
pub open spec fn active_of(ns: Seq<AnnotationView>) -> Seq<AnnotationView> {
    ns.filter(|n: AnnotationView| n.status@ == "active"@)
}

/// The report for annotations `a` and `b`, if they conflict: symbol,
/// first annotation, second annotation, reason.
pub open spec fn pair_report(sid: Seq<char>, a: AnnotationView, b: AnnotationView) -> Option<
    (Seq<char>, i64, i64, Seq<char>),
> {
    match first_conflict(lowercase_of(a.content@), lowercase_of(b.content@), 0) {
        None => None,
        Some(k) => Some(
            (sid, a.id, b.id, reason_of(a.content@, b.content@, contradiction_pair(k).0, contradiction_pair(k).1)),
        ),
    }
}

/// The reports for annotation `i` paired with each of `i+1..j`.
pub open spec fn row_reports(sid: Seq<char>, act: Seq<AnnotationView>, i: int, j: int) -> Seq<
    (Seq<char>, i64, i64, Seq<char>),
>
    decreases j - i,
{
    if j <= i + 1 {
        seq![]
    } else {
        let prev = row_reports(sid, act, i, j - 1);
        match pair_report(sid, act[i], act[j - 1]) {
            Some(r) => prev.push(r),
            None => prev,
        }
    }
}

/// The reports for the first `i` annotations paired with all later ones.
pub open spec fn reports_upto(sid: Seq<char>, act: Seq<AnnotationView>, i: int) -> Seq<
    (Seq<char>, i64, i64, Seq<char>),
>
    decreases i,
{
    if i <= 0 {
        seq![]
    } else {
        reports_upto(sid, act, i - 1) + row_reports(sid, act, i - 1, act.len() as int)
    }
}

/// Every conflicting pair of active annotations can have its contents
/// shortened for the report.
pub open spec fn reports_truncatable(act: Seq<AnnotationView>) -> bool {
    forall|i: int, j: int|
        0 <= i < j < act.len() && (#[trigger] first_conflict(
            lowercase_of(act[i].content@),
            lowercase_of(act[j].content@),
            0,
        )) is Some ==> truncatable(act[i].content@, 50) && truncatable(act[j].content@, 50)
}

proof fn lemma_row_reports_empty(sid: Seq<char>, act: Seq<AnnotationView>, i: int, j: int)
    requires
        0 <= i,
        act.len() < 2,
        j <= act.len(),
    ensures
        row_reports(sid, act, i, j).len() == 0,
    decreases j - i,
{
    if j > i + 1 {
        lemma_row_reports_empty(sid, act, i, j - 1);
    }
}

proof fn lemma_reports_empty(sid: Seq<char>, act: Seq<AnnotationView>, i: int)
    requires
        act.len() < 2,
    ensures
        reports_upto(sid, act, i).len() == 0,
    decreases i,
{
    if i > 0 {
        lemma_reports_empty(sid, act, i - 1);
        lemma_row_reports_empty(sid, act, i - 1, act.len() as int);
    }
}

/// With fewer than two active annotations nothing can contradict: stale
/// ones and a lone one give no report.
pub proof fn law_lone_annotation_no_contradiction(sid: Seq<char>, ns: Seq<AnnotationView>)
    requires
        active_of(ns).len() < 2,
    ensures
        reports_upto(sid, active_of(ns), active_of(ns).len() as int).len() == 0,
{
    lemma_reports_empty(sid, active_of(ns), active_of(ns).len() as int);
}

proof fn lemma_first_conflict_found(la: Seq<char>, lb: Seq<char>, s: int, k: int)
    requires
        0 <= s <= k < CONTRADICTION_PAIR_COUNT,
        conflicts_on(la, lb, k),
    ensures
        first_conflict(la, lb, s) is Some,
    decreases k - s,
{
    if s < k && !conflicts_on(la, lb, s) {
        lemma_first_conflict_found(la, lb, s + 1, k);
    }
}

proof fn lemma_first_conflict_swap(la: Seq<char>, lb: Seq<char>, s: int)
    ensures
        first_conflict(la, lb, s) is Some <==> first_conflict(lb, la, s) is Some,
    decreases CONTRADICTION_PAIR_COUNT - s,
{
    if 0 <= s < CONTRADICTION_PAIR_COUNT {
        lemma_first_conflict_swap(la, lb, s + 1);
    }
}

proof fn lemma_row_has(sid: Seq<char>, act: Seq<AnnotationView>, i: int, j: int, n: int)
    requires
        0 <= i < j < n <= act.len(),
        pair_report(sid, act[i], act[j]) is Some,
    ensures
        exists|q: int|
            0 <= q < row_reports(sid, act, i, n).len() && (#[trigger] row_reports(sid, act, i, n)[q]).1 == act[i].id
                && row_reports(sid, act, i, n)[q].2 == act[j].id,
    decreases n,
{
    let r = row_reports(sid, act, i, n);
    if n - 1 == j {
        let prev = row_reports(sid, act, i, n - 1);
        assert(r == prev.push(pair_report(sid, act[i], act[j]).unwrap()));
        assert(r[prev.len() as int].1 == act[i].id);
    } else {
        lemma_row_has(sid, act, i, j, n - 1);
        let prev = row_reports(sid, act, i, n - 1);
        let q = choose|q: int| 0 <= q < prev.len() && (#[trigger] prev[q]).1 == act[i].id && prev[q].2 == act[j].id;
        assert(r[q] == prev[q]);
    }
}

proof fn lemma_upto_has(sid: Seq<char>, act: Seq<AnnotationView>, i: int, j: int, m: int)
    requires
        0 <= i < j < act.len(),
        i < m <= act.len(),
        pair_report(sid, act[i], act[j]) is Some,
    ensures
        exists|q: int|
            0 <= q < reports_upto(sid, act, m).len() && (#[trigger] reports_upto(sid, act, m)[q]).1 == act[i].id
                && reports_upto(sid, act, m)[q].2 == act[j].id,
    decreases m,
{
    let r = reports_upto(sid, act, m);
    let prev = reports_upto(sid, act, m - 1);
    let row = row_reports(sid, act, m - 1, act.len() as int);
    assert(r == prev + row);
    if m - 1 == i {
        lemma_row_has(sid, act, i, j, act.len() as int);
        let q = choose|q: int| 0 <= q < row.len() && (#[trigger] row[q]).1 == act[i].id && row[q].2 == act[j].id;
        assert(r[prev.len() + q] == row[q]);
    } else {
        lemma_upto_has(sid, act, i, j, m - 1);
        let q = choose|q: int| 0 <= q < prev.len() && (#[trigger] prev[q]).1 == act[i].id && prev[q].2 == act[j].id;
        assert(r[q] == prev[q]);
    }
}

proof fn lemma_first_conflict_sound(la: Seq<char>, lb: Seq<char>, s: int)
    ensures
        first_conflict(la, lb, s) matches Some(k) ==> s <= k < CONTRADICTION_PAIR_COUNT && conflicts_on(la, lb, k),
    decreases CONTRADICTION_PAIR_COUNT - s,
{
    if 0 <= s < CONTRADICTION_PAIR_COUNT && !conflicts_on(la, lb, s) {
        lemma_first_conflict_sound(la, lb, s + 1);
    }
}

/// Law: a report is made only for two annotations of which one holds one
/// keyword of a pair and the other the other (lowercased).
pub proof fn law_conflict_needs_keywords(sid: Seq<char>, a: AnnotationView, b: AnnotationView)
    ensures
        pair_report(sid, a, b) is Some ==> exists|k: int|
            0 <= k < CONTRADICTION_PAIR_COUNT && ((contains(lowercase_of(a.content@), #[trigger] contradiction_pair(k).0)
                && contains(lowercase_of(b.content@), contradiction_pair(k).1)) || (contains(
                lowercase_of(a.content@),
                contradiction_pair(k).1,
            ) && contains(lowercase_of(b.content@), contradiction_pair(k).0))),
{
    lemma_first_conflict_sound(lowercase_of(a.content@), lowercase_of(b.content@), 0);
    if pair_report(sid, a, b) is Some {
        let k = first_conflict(lowercase_of(a.content@), lowercase_of(b.content@), 0)->0;
        assert(conflicts_on(lowercase_of(a.content@), lowercase_of(b.content@), k));
    }
}

/// Law: two annotations conflict whichever of them holds which keyword.
/// Whether annotations `a` and `b` give a report does not depend on their
/// order.
pub proof fn law_conflict_symmetric(sid: Seq<char>, a: AnnotationView, b: AnnotationView)
    ensures
        pair_report(sid, a, b) is Some <==> pair_report(sid, b, a) is Some,
{
    lemma_first_conflict_swap(lowercase_of(a.content@), lowercase_of(b.content@), 0);
}

/// Law: when an earlier active annotation holds the second keyword of a
/// pair and a later one the first (lowercased), the reports name that
/// pair of annotations, as they do the other way round.
pub proof fn law_conflict_reported(sid: Seq<char>, act: Seq<AnnotationView>, i: int, j: int, k: int)
    requires
        0 <= i < j < act.len(),
        0 <= k < CONTRADICTION_PAIR_COUNT,
        (contains(lowercase_of(act[i].content@), contradiction_pair(k).1) && contains(
            lowercase_of(act[j].content@),
            contradiction_pair(k).0,
        )) || (contains(lowercase_of(act[i].content@), contradiction_pair(k).0) && contains(
            lowercase_of(act[j].content@),
            contradiction_pair(k).1,
        )),
    ensures
        exists|q: int|
            0 <= q < reports_upto(sid, act, act.len() as int).len() && (#[trigger] reports_upto(
                sid,
                act,
                act.len() as int,
            )[q]).1 == act[i].id && reports_upto(sid, act, act.len() as int)[q].2 == act[j].id,
{
    lemma_first_conflict_found(lowercase_of(act[i].content@), lowercase_of(act[j].content@), 0, k);
    lemma_upto_has(sid, act, i, j, act.len() as int);
}

pub open spec fn contradiction_view(c: Contradiction) -> (Seq<char>, i64, i64, Seq<char>) {
    (c.symbol_id@, c.annotation_a_id, c.annotation_b_id, c.reason@)
}

fn active_annotations(ns: &Vec<AnnotationView>) -> (r: Vec<usize>)
    ensures
        r@.len() == active_of(ns@).len(),
        forall|k: int| 0 <= k < r@.len() ==> #[trigger] r@[k] < ns@.len() && ns@[r@[k] as int] == active_of(ns@)[k],
{
    let ghost pred = |n: AnnotationView| n.status@ == "active"@;
    let mut r: Vec<usize> = Vec::new();
    let mut i: usize = 0;
    while i < ns.len()
        invariant
            i <= ns.len(),
            pred == (|n: AnnotationView| n.status@ == "active"@),
            r@.len() == ns@.subrange(0, i as int).filter(pred).len(),
            forall|k: int|
                0 <= k < r@.len() ==> #[trigger] r@[k] < i && ns@[r@[k] as int] == ns@.subrange(0, i as int).filter(pred)[k],
        decreases ns.len() - i,
    {
        proof {
            reveal(Seq::filter);
            let sub = ns@.subrange(0, i + 1);
            assert(sub.drop_last() =~= ns@.subrange(0, i as int));
            assert(sub.last() == ns@[i as int]);
        }
        if same_text(ns[i].status.as_str(), "active") {
            r.push(i);
        }
        i = i + 1;
    }
    assert(ns@.subrange(0, ns.len() as int) =~= ns@);
    r
}

fn conflict_exec(la: &[char], lb: &[char]) -> (r: Option<usize>)
    ensures
        match r {
            Some(k) => k < CONTRADICTION_PAIR_COUNT && first_conflict(la@, lb@, 0) == Some(k as int),
            None => first_conflict(la@, lb@, 0) is None,
        },
{
    let mut k: usize = 0;
    while k < CONTRADICTION_PAIR_COUNT
        invariant
            k <= CONTRADICTION_PAIR_COUNT,
            first_conflict(la@, lb@, 0) == first_conflict(la@, lb@, k as int),
        decreases CONTRADICTION_PAIR_COUNT - k,
    {
        let (w1, w2) = contradiction_pair_exec(k);
        let c1 = to_chars(w1);
        let c2 = to_chars(w2);
        let hit = (contains_chars(la, c1.as_slice()) && contains_chars(lb, c2.as_slice()))
            || (contains_chars(la, c2.as_slice()) && contains_chars(lb, c1.as_slice()));
        if hit {
            return Some(k);
        }
        k = k + 1;
    }
    None
}

/// Check for contradictions among the active annotations of a symbol: for
/// each pair, in order, the first keyword pair on which their lowercased
/// contents conflict gives one report.
pub fn detect_contradictions(symbol_id: &str, annotations: &Vec<AnnotationView>) -> (r: Vec<Contradiction>)
    requires
        reports_truncatable(active_of(annotations@)),
    ensures
        r@.map_values(|c: Contradiction| contradiction_view(c)) == reports_upto(
            symbol_id@,
            active_of(annotations@),
            active_of(annotations@).len() as int,
        ),
{
    let ghost act = active_of(annotations@);
    let idx = active_annotations(annotations);
    let mut lowered: Vec<Vec<char>> = Vec::new();
    let mut t: usize = 0;
    while t < idx.len()
        invariant
            t <= idx.len(),
            act == active_of(annotations@),
            idx@.len() == act.len(),
            forall|k: int| 0 <= k < idx@.len() ==> #[trigger] idx@[k] < annotations@.len() && annotations@[idx@[k] as int] == act[k],
            lowered@.len() == t,
            forall|k: int| 0 <= k < t ==> #[trigger] lowered@[k]@ == lowercase_of(act[k].content@),
        decreases idx.len() - t,
    {
        let low = to_lowercase(annotations[idx[t]].content.as_str());
        lowered.push(to_chars(low.as_str()));
        t = t + 1;
    }
    let n = idx.len();
    let mut out: Vec<Contradiction> = Vec::new();
    let mut i: usize = 0;
    while i < n
        invariant
            i <= n,
            n == idx@.len(),
            act == active_of(annotations@),
            reports_truncatable(act),
            idx@.len() == act.len(),
            forall|k: int| 0 <= k < idx@.len() ==> #[trigger] idx@[k] < annotations@.len() && annotations@[idx@[k] as int] == act[k],
            lowered@.len() == n,
            forall|k: int| 0 <= k < n ==> #[trigger] lowered@[k]@ == lowercase_of(act[k].content@),
            out@.map_values(|c: Contradiction| contradiction_view(c)) == reports_upto(symbol_id@, act, i as int),
        decreases n - i,
    {
        let mut j: usize = i + 1;
        let ghost base = out@.map_values(|c: Contradiction| contradiction_view(c));
        while j < n
            invariant
                i < n,
                i + 1 <= j <= n,
                n == idx@.len(),
                act == active_of(annotations@),
                reports_truncatable(act),
                idx@.len() == act.len(),
                forall|k: int| 0 <= k < idx@.len() ==> #[trigger] idx@[k] < annotations@.len() && annotations@[idx@[k] as int] == act[k],
                lowered@.len() == n,
                forall|k: int| 0 <= k < n ==> #[trigger] lowered@[k]@ == lowercase_of(act[k].content@),
                base == reports_upto(symbol_id@, act, i as int),
                out@.map_values(|c: Contradiction| contradiction_view(c)) == base + row_reports(symbol_id@, act, i as int, j as int),
            decreases n - j,
        {
            let ghost before = out@.map_values(|c: Contradiction| contradiction_view(c));
            let a = &annotations[idx[i]];
            let b = &annotations[idx[j]];
            proof {
                assert(lowered@[i as int]@ == lowercase_of(act[i as int].content@));
                assert(lowered@[j as int]@ == lowercase_of(act[j as int].content@));
            }
            match conflict_exec(lowered[i].as_slice(), lowered[j].as_slice()) {
                Some(k) => {
                    let (w1, w2) = contradiction_pair_exec(k);
                    proof {
                        assert(first_conflict(
                            lowercase_of(act[i as int].content@),
                            lowercase_of(act[j as int].content@),
                            0,
                        ) is Some);
                    }
                    let ta = truncate(a.content.as_str(), 50);
                    let tb = truncate(b.content.as_str(), 50);
                    let mut reason = String::new();
                    push_str(&mut reason, "Possible contradiction: '");
                    push_str(&mut reason, ta.as_str());
                    push_str(&mut reason, "' vs '");
                    push_str(&mut reason, tb.as_str());
                    push_str(&mut reason, "' (keywords: ");
                    push_str(&mut reason, w1);
                    push_str(&mut reason, " / ");
                    push_str(&mut reason, w2);
                    push_str(&mut reason, ")");
                    let c = Contradiction {
                        symbol_id: symbol_id.to_owned(),
                        annotation_a_id: a.id,
                        annotation_b_id: b.id,
                        reason,
                    };
                    out.push(c);
                    proof {
                        assert(out@.map_values(|c: Contradiction| contradiction_view(c)) =~= before.push(contradiction_view(c)));
                    }
                },
                None => {
                    proof {
                        assert(out@.map_values(|c: Contradiction| contradiction_view(c)) =~= before);
                    }
                },
            }
            proof {
                assert(base + row_reports(symbol_id@, act, i as int, j + 1) =~= if pair_report(symbol_id@, act[i as int], act[j as int]) is Some {
                    (base + row_reports(symbol_id@, act, i as int, j as int)).push(pair_report(symbol_id@, act[i as int], act[j as int]).unwrap())
                } else {
                    base + row_reports(symbol_id@, act, i as int, j as int)
                });
            }
            j = j + 1;
        }
        i = i + 1;
    }
    out
}

/// Whether `s` can be shortened to `max` bytes.
pub fn is_truncatable(s: &str, max: usize) -> (b: bool)
    ensures
        b == truncatable(s@, max as int),
{
    s.len() <= max || s.is_char_boundary(max)
}

/// The contradictions among a symbol's active annotations, when every
/// report can quote its contents; `None` where cutting a quoted content
/// would split a character (the reports could not be made).
pub fn checked_contradictions(symbol_id: &str, annotations: &Vec<AnnotationView>) -> (r: Option<
    Vec<Contradiction>,
>)
    ensures
        r is Some <==> reports_truncatable(active_of(annotations@)),
        r matches Some(v) ==> v@.map_values(|c: Contradiction| contradiction_view(c)) == reports_upto(
            symbol_id@,
            active_of(annotations@),
            active_of(annotations@).len() as int,
        ),
{
    if contradictions_reportable(annotations) {
        Some(detect_contradictions(symbol_id, annotations))
    } else {
        None
    }
}

/// Whether every report `detect_contradictions` would make can shorten the
/// contents it quotes; where not, cutting a content would split a character.
pub fn contradictions_reportable(annotations: &Vec<AnnotationView>) -> (b: bool)
    ensures
        b == reports_truncatable(active_of(annotations@)),
{
    let ghost act = active_of(annotations@);
    let idx = active_annotations(annotations);
    let n = idx.len();
    let mut i: usize = 0;
    while i < n
        invariant
            i <= n == idx@.len() == act.len(),
            act == active_of(annotations@),
            forall|k: int| 0 <= k < idx@.len() ==> #[trigger] idx@[k] < annotations@.len() && annotations@[idx@[k] as int] == act[k],
            forall|a: int, b: int|
                0 <= a < i && a < b < act.len() && (#[trigger] first_conflict(
                    lowercase_of(act[a].content@),
                    lowercase_of(act[b].content@),
                    0,
                )) is Some ==> truncatable(act[a].content@, 50) && truncatable(act[b].content@, 50),
        decreases n - i,
    {
        let la = to_lowercase(annotations[idx[i]].content.as_str());
        let ca = to_chars(la.as_str());
        let mut j: usize = i + 1;
        while j < n
            invariant
                i < n == idx@.len() == act.len(),
                i + 1 <= j <= n,
                act == active_of(annotations@),
                forall|k: int| 0 <= k < idx@.len() ==> #[trigger] idx@[k] < annotations@.len() && annotations@[idx@[k] as int] == act[k],
                ca@ == lowercase_of(act[i as int].content@),
                forall|a: int, b: int|
                    0 <= a < i && a < b < act.len() && (#[trigger] first_conflict(
                        lowercase_of(act[a].content@),
                        lowercase_of(act[b].content@),
                        0,
                    )) is Some ==> truncatable(act[a].content@, 50) && truncatable(act[b].content@, 50),
                forall|b: int|
                    i < b < j && (#[trigger] first_conflict(
                        lowercase_of(act[i as int].content@),
                        lowercase_of(act[b].content@),
                        0,
                    )) is Some ==> truncatable(act[i as int].content@, 50) && truncatable(act[b].content@, 50),
            decreases n - j,
        {
            let lb = to_lowercase(annotations[idx[j]].content.as_str());
            let cb = to_chars(lb.as_str());
            if conflict_exec(ca.as_slice(), cb.as_slice()).is_some() {
                if !(is_truncatable(annotations[idx[i]].content.as_str(), 50)
                    && is_truncatable(annotations[idx[j]].content.as_str(), 50)) {
                    return false;
                }
            }
            j = j + 1;
        }
        i = i + 1;
    }
    true
}

// ── Clones ────────────────────────────────────────────────────────────────

#[derive(Debug, Clone, Copy, PartialEq, Eq, Structural)]
pub enum CloneType {
    /// Identical body_hash — exact clone
    Exact,
    /// High embedding cosine — near-clone (similar structure/semantics)
    Near,
}

/// Two symbols found to be clones of each other.
#[derive(Debug, Clone)]
pub struct ClonePair {
    pub symbol_a_id: String,
    pub symbol_b_id: String,
    pub clone_type: CloneType,
}

pub open spec fn clone_view(c: ClonePair) -> (Seq<char>, Seq<char>, CloneType) {
    (c.symbol_a_id@, c.symbol_b_id@, c.clone_type)
}

/// Symbols `i` and `j` are exact clones across files.
pub open spec fn exact_clones(ss: Seq<SymbolRow>, i: int, j: int) -> bool {
    ss[i].body_hash@ == ss[j].body_hash@ && ss[i].file@ != ss[j].file@
}

/// The exact clone pairs `(i, j)` for `j` in `i+1..k`.
pub open spec fn clone_row(ss: Seq<SymbolRow>, i: int, k: int) -> Seq<(Seq<char>, Seq<char>, CloneType)>
    decreases k - i,
{
    if k <= i + 1 {
        seq![]
    } else if exact_clones(ss, i, k - 1) {
        clone_row(ss, i, k - 1).push((ss[i].id@, ss[k - 1].id@, CloneType::Exact))
    } else {
        clone_row(ss, i, k - 1)
    }
}

/// The exact clone pairs whose first symbol is among the first `i`.
pub open spec fn clones_upto(ss: Seq<SymbolRow>, i: int) -> Seq<(Seq<char>, Seq<char>, CloneType)>
    decreases i,
{
    if i <= 0 {
        seq![]
    } else {
        clones_upto(ss, i - 1) + clone_row(ss, i - 1, ss.len() as int)
    }
}

/// `e` reports symbols `i < j` with the same body in different files.
pub open spec fn reports_clone(ss: Seq<SymbolRow>, e: (Seq<char>, Seq<char>, CloneType), i: int, j: int) -> bool {
    0 <= i < j < ss.len() && exact_clones(ss, i, j) && e == (ss[i].id@, ss[j].id@, CloneType::Exact)
}

/// Every pair of `ps` reports clones, the first of them being symbol `i`
/// when `i` is given.
pub open spec fn all_report_clones(ss: Seq<SymbolRow>, ps: Seq<(Seq<char>, Seq<char>, CloneType)>) -> bool {
    forall|m: int| 0 <= m < ps.len() ==> #[trigger] is_reported_clone(ss, ps[m])
}

/// Some symbols `a < b` are clones reported by `e`.
pub open spec fn is_reported_clone(ss: Seq<SymbolRow>, e: (Seq<char>, Seq<char>, CloneType)) -> bool {
    exists|a: int, b: int| #[trigger] reports_clone(ss, e, a, b)
}

proof fn lemma_clone_row_sound(ss: Seq<SymbolRow>, i: int, k: int)
    requires
        0 <= i,
        k <= ss.len(),
    ensures
        all_report_clones(ss, clone_row(ss, i, k)),
    decreases k - i,
{
    if k > i + 1 {
        lemma_clone_row_sound(ss, i, k - 1);
        let prev = clone_row(ss, i, k - 1);
        let cur = clone_row(ss, i, k);
        assert forall|m: int| 0 <= m < cur.len() implies #[trigger] is_reported_clone(ss, cur[m]) by {
            if m < prev.len() {
                assert(cur[m] == prev[m]);
                assert(is_reported_clone(ss, prev[m]));
                let (a, b) = choose|a: int, b: int| #[trigger] reports_clone(ss, prev[m], a, b);
                assert(reports_clone(ss, cur[m], a, b));
            } else {
                assert(reports_clone(ss, cur[m], i, k - 1));
            }
        }
        assert(all_report_clones(ss, cur));
    } else {
        assert(clone_row(ss, i, k) =~= seq![]);
        assert(all_report_clones(ss, clone_row(ss, i, k)));
    }
}

proof fn lemma_clones_upto_sound(ss: Seq<SymbolRow>, i: int)
    requires
        i <= ss.len(),
    ensures
        all_report_clones(ss, clones_upto(ss, i)),
    decreases i,
{
    if i > 0 {
        lemma_clones_upto_sound(ss, i - 1);
        lemma_clone_row_sound(ss, i - 1, ss.len() as int);
        let x = clones_upto(ss, i - 1);
        let y = clone_row(ss, i - 1, ss.len() as int);
        let cur = clones_upto(ss, i);
        assert(cur == x + y);
        assert forall|m: int| 0 <= m < cur.len() implies #[trigger] is_reported_clone(ss, cur[m]) by {
            if m < x.len() {
                assert(cur[m] == x[m]);
                assert(is_reported_clone(ss, x[m]));
                let (a, b) = choose|a: int, b: int| #[trigger] reports_clone(ss, x[m], a, b);
                assert(reports_clone(ss, cur[m], a, b));
            } else {
                assert(cur[m] == y[m - x.len()]);
                assert(is_reported_clone(ss, y[m - x.len()]));
                let (a, b) = choose|a: int, b: int| #[trigger] reports_clone(ss, y[m - x.len()], a, b);
                assert(reports_clone(ss, cur[m], a, b));
            }
        }
    }
}

/// Every exact clone pair found joins two symbols of different files with
/// the same body: same-file look-alikes are never reported.
pub proof fn law_clones_cross_files(ss: Seq<SymbolRow>, m: int)
    requires
        0 <= m < clones_upto(ss, ss.len() as int).len(),
    ensures
        exists|i: int, j: int|
            0 <= i < j < ss.len() && ss[i].body_hash@ == ss[j].body_hash@ && ss[i].file@ != ss[j].file@
                && clones_upto(ss, ss.len() as int)[m] == (ss[i].id@, ss[j].id@, CloneType::Exact),
{
    lemma_clones_upto_sound(ss, ss.len() as int);
    assert(is_reported_clone(ss, clones_upto(ss, ss.len() as int)[m]));
    let (i, j) = choose|a: int, b: int| #[trigger] reports_clone(ss, clones_upto(ss, ss.len() as int)[m], a, b);
    assert(reports_clone(ss, clones_upto(ss, ss.len() as int)[m], i, j));
}

/// Find exact clones: every pair of symbols, in symbol order, with the same
/// body hash and different files.
pub fn find_exact_clones(symbols: &Vec<SymbolRow>) -> (r: Vec<ClonePair>)
    ensures
        r@.map_values(|c: ClonePair| clone_view(c)) == clones_upto(symbols@, symbols@.len() as int),
{
    let n = symbols.len();
    let mut out: Vec<ClonePair> = Vec::new();
    let mut i: usize = 0;
    while i < n
        invariant
            i <= n == symbols@.len(),
            out@.map_values(|c: ClonePair| clone_view(c)) == clones_upto(symbols@, i as int),
        decreases n - i,
    {
        let ghost base = out@.map_values(|c: ClonePair| clone_view(c));
        let mut j: usize = i + 1;
        while j < n
            invariant
                i < n == symbols@.len(),
                i + 1 <= j <= n,
                base == clones_upto(symbols@, i as int),
                out@.map_values(|c: ClonePair| clone_view(c)) == base + clone_row(symbols@, i as int, j as int),
            decreases n - j,
        {
            let ghost before = out@.map_values(|c: ClonePair| clone_view(c));
            if same_text(symbols[i].body_hash.as_str(), symbols[j].body_hash.as_str())
                && !same_text(symbols[i].file.as_str(), symbols[j].file.as_str()) {
                let c = ClonePair {
                    symbol_a_id: symbols[i].id.clone(),
                    symbol_b_id: symbols[j].id.clone(),
                    clone_type: CloneType::Exact,
                };
                out.push(c);
                assert(out@.map_values(|c: ClonePair| clone_view(c)) =~= before.push(clone_view(c)));
                assert(base + clone_row(symbols@, i as int, j + 1) =~= before.push(clone_view(c)));
            } else {
                assert(out@.map_values(|c: ClonePair| clone_view(c)) =~= before);
                assert(base + clone_row(symbols@, i as int, j + 1) =~= before);
            }
            j = j + 1;
        }
        i = i + 1;
    }
    out
}

/// The exact clones of `target` among `symbols`: other symbols with the same
/// body hash in another file, in symbol order.
pub open spec fn exact_clones_of_spec(target: SymbolRow, ss: Seq<SymbolRow>, k: int) -> Seq<
    (Seq<char>, Seq<char>, CloneType),
>
    decreases k,
{
    if k <= 0 {
        seq![]
    } else {
        let prev = exact_clones_of_spec(target, ss, k - 1);
        let s = ss[k - 1];
        if s.id@ != target.id@ && s.body_hash@ == target.body_hash@ && s.file@ != target.file@ {
            prev.push((target.id@, s.id@, CloneType::Exact))
        } else {
            prev
        }
    }
}

/// The exact clones of a symbol.
pub fn exact_clones_of(target: &SymbolRow, symbols: &Vec<SymbolRow>) -> (r: Vec<ClonePair>)
    ensures
        r@.map_values(|c: ClonePair| clone_view(c)) == exact_clones_of_spec(*target, symbols@, symbols@.len() as int),
{
    let mut out: Vec<ClonePair> = Vec::new();
    let mut k: usize = 0;
    while k < symbols.len()
        invariant
            k <= symbols.len(),
            out@.map_values(|c: ClonePair| clone_view(c)) == exact_clones_of_spec(*target, symbols@, k as int),
        decreases symbols.len() - k,
    {
        let ghost before = out@.map_values(|c: ClonePair| clone_view(c));
        let s = &symbols[k];
        if !same_text(s.id.as_str(), target.id.as_str()) && same_text(s.body_hash.as_str(), target.body_hash.as_str())
            && !same_text(s.file.as_str(), target.file.as_str()) {
            let c = ClonePair {
                symbol_a_id: target.id.clone(),
                symbol_b_id: s.id.clone(),
                clone_type: CloneType::Exact,
            };
            out.push(c);
            assert(out@.map_values(|c: ClonePair| clone_view(c)) =~= before.push(clone_view(c)));
        } else {
            assert(out@.map_values(|c: ClonePair| clone_view(c)) =~= before);
        }
        k = k + 1;
    }
    out
}

// ── Community labels ──────────────────────────────────────────────────────

/// Every file has character `c` at position `i`.
pub open spec fn all_have_at(files: Seq<Seq<char>>, i: int, c: char) -> bool {
    forall|k: int| 0 <= k < files.len() ==> i < (#[trigger] files[k]).len() && files[k][i] == c
}

/// Length of the longest common prefix of the files, counted from `i`.
pub open spec fn common_len_from(files: Seq<Seq<char>>, i: int) -> int
    decreases files[0].len() - i,
{
    if 0 <= i < files[0].len() && all_have_at(files, i, files[0][i]) {
        common_len_from(files, i + 1)
    } else {
        i
    }
}

/// How many of the files are `f`.
pub open spec fn count_of(files: Seq<Seq<char>>, f: Seq<char>) -> nat {
    files.filter(|g: Seq<char>| g == f).len()
}

/// `label` is a label for a group of symbols in `files`: `unknown` for no
/// files; their common path prefix, trailing slashes removed, when longer
/// than two bytes; otherwise a file that occurs most often among them.
pub open spec fn is_label_of(label: Seq<char>, files: Seq<Seq<char>>) -> bool {
    if files.len() == 0 {
        label == "unknown"@
    } else {
        let prefix = files[0].subrange(0, common_len_from(files, 0));
        if utf8_len(prefix) > 2 {
            label == strip_suffixes(prefix, "/"@)
        } else {
            exists|b: int|
                0 <= b < files.len() && label == files[b] && forall|k: int|
                    0 <= k < files.len() ==> count_of(files, #[trigger] files[k]) <= count_of(files, files[b])
        }
    }
}

proof fn lemma_common_len(files: Seq<Seq<char>>, i: int)
    requires
        files.len() > 0,
        0 <= i <= files[0].len(),
    ensures
        i <= common_len_from(files, i) <= files[0].len(),
    decreases files[0].len() - i,
{
    if i < files[0].len() && all_have_at(files, i, files[0][i]) {
        lemma_common_len(files, i + 1);
    }
}

fn count_in(files: &Vec<Vec<char>>, f: &[char]) -> (n: usize)
    ensures
        n == count_of(files@.map_values(|v: Vec<char>| v@), f@),
{
    let ghost fs = files@.map_values(|v: Vec<char>| v@);
    let ghost pred = |g: Seq<char>| g == f@;
    let mut n: usize = 0;
    let mut i: usize = 0;
    while i < files.len()
        invariant
            i <= files.len(),
            fs == files@.map_values(|v: Vec<char>| v@),
            pred == (|g: Seq<char>| g == f@),
            n == fs.subrange(0, i as int).filter(pred).len(),
            n <= i,
        decreases files.len() - i,
    {
        proof {
            reveal(Seq::filter);
            let sub = fs.subrange(0, i + 1);
            assert(sub.drop_last() =~= fs.subrange(0, i as int));
            assert(sub.last() == files@[i as int]@);
        }
        if crate::text::has_prefix(files[i].as_slice(), f) && files[i].len() == f.len() {
            assert(files@[i as int]@ =~= f@);
            n = n + 1;
        } else {
            proof {
                if files@[i as int]@ == f@ {
                    assert(f@.subrange(0, f@.len() as int) =~= f@);
                }
            }
        }
        i = i + 1;
    }
    assert(fs.subrange(0, files.len() as int) =~= fs);
    n
}

/// A human-readable label for a group of symbols in the given files.
pub fn label_from_files(files: &Vec<String>) -> (r: String)
    ensures
        is_label_of(r@, files@.map_values(|s: String| s@)),
{
    let ghost fs = files@.map_values(|s: String| s@);
    if files.len() == 0 {
        return "unknown".to_owned();
    }
    let mut cs: Vec<Vec<char>> = Vec::new();
    let mut t: usize = 0;
    while t < files.len()
        invariant
            t <= files.len(),
            fs == files@.map_values(|s: String| s@),
            cs@.len() == t,
            forall|k: int| 0 <= k < t ==> #[trigger] cs@[k]@ == fs[k],
        decreases files.len() - t,
    {
        cs.push(to_chars(files[t].as_str()));
        t = t + 1;
    }
    assert(cs@.map_values(|v: Vec<char>| v@) =~= fs);
    let first = &cs[0];
    let mut i: usize = 0;
    proof {
        lemma_common_len(fs, 0);
    }
    loop
        invariant
            fs == files@.map_values(|s: String| s@),
            cs@.map_values(|v: Vec<char>| v@) == fs,
            cs@.len() == fs.len() > 0,
            forall|k: int| 0 <= k < cs@.len() ==> #[trigger] cs@[k]@ == fs[k],
            first@ == fs[0],
            i <= first.len(),
            common_len_from(fs, 0) == common_len_from(fs, i as int),
        ensures
            common_len_from(fs, 0) == i,
            i <= fs[0].len(),
        decreases first.len() - i,
    {
        if i >= first.len() {
            break;
        }
        let c = first[i];
        let mut all = true;
        let mut k: usize = 0;
        while k < cs.len()
            invariant
                k <= cs.len(),
                cs@.len() == fs.len(),
                forall|q: int| 0 <= q < cs@.len() ==> #[trigger] cs@[q]@ == fs[q],
                i < fs[0].len(),
                c == fs[0][i as int],
                all <==> forall|q: int| 0 <= q < k ==> i < (#[trigger] fs[q]).len() && fs[q][i as int] == c,
            decreases cs.len() - k,
        {
            if !(i < cs[k].len() && cs[k][i] == c) {
                all = false;
            }
            k = k + 1;
        }
        if !all {
            proof {
                let q = choose|q: int| 0 <= q < cs@.len() && !(i < (#[trigger] fs[q]).len() && fs[q][i as int] == c);
                assert(!all_have_at(fs, i as int, fs[0][i as int]));
            }
            break;
        }
        assert(all_have_at(fs, i as int, fs[0][i as int]));
        i = i + 1;
    }
    proof {
        lemma_common_len(fs, i as int);
    }
    let prefix = from_chars(slice_chars(first.as_slice(), 0, i).as_slice());
    if prefix.as_str().len() > 2 {
        let slash: [char; 1] = ['/'];
        proof {
            reveal_strlit("/");
            assert(slash@ =~= "/"@);
        }
        let p = to_chars(prefix.as_str());
        let trimmed = trim_end_matches(p.as_slice(), slash.as_slice());
        assert(prefix@ == fs[0].subrange(0, common_len_from(fs, 0)));
        return from_chars(trimmed.as_slice());
    }
    let mut best: usize = 0;
    let mut best_count = count_in(&cs, cs[0].as_slice());
    let mut k: usize = 1;
    while k < cs.len()
        invariant
            1 <= k <= cs.len(),
            cs@.map_values(|v: Vec<char>| v@) == fs,
            cs@.len() == fs.len(),
            forall|q: int| 0 <= q < cs@.len() ==> #[trigger] cs@[q]@ == fs[q],
            best < k,
            best_count == count_of(fs, fs[best as int]),
            forall|q: int| 0 <= q < k ==> count_of(fs, #[trigger] fs[q]) <= best_count,
        decreases cs.len() - k,
    {
        let n = count_in(&cs, cs[k].as_slice());
        if n > best_count {
            best = k;
            best_count = n;
        }
        k = k + 1;
    }
    let r = files[best].clone();
    assert(r@ == fs[best as int]);
    assert(prefix@ == fs[0].subrange(0, common_len_from(fs, 0)));
    assert(forall|q: int| 0 <= q < fs.len() ==> count_of(fs, #[trigger] fs[q]) <= count_of(fs, fs[best as int]));
    r
}

} // verus!

//! Decisions of the self-healing memory cascade.
//!
//! When a symbol changes, its annotations go stale (or come back to life
//! when the code reverts), and a breadth-first walk over the reverse call
//! graph finds the callers whose annotations lose confidence. The store
//! queries and the confidence arithmetic happen around these decisions.
use vstd::prelude::*;
use vstd::arithmetic::power2::{pow2, lemma2_to64, lemma_pow2_strictly_increases};
use crate::parser::languages::same_text;

verus! {

// ── Annotations of the changed symbol ─────────────────────────────────────

/// What happens to one annotation of a symbol that changed.
#[derive(Debug, Clone, Copy, PartialEq, Eq, Structural)]
pub enum AnnotationChange {
    /// The code is back to the hash the annotation was written against.
    Reactivate,
    /// The code no longer has the hash the annotation was written against.
    MarkStale,
    /// Nothing to do.
    Keep,
}

/// The change for an annotation anchored at `anchor` with status `status`
/// when the symbol's full hash is now `current`.
pub open spec fn annotation_change_of(anchor: Option<Seq<char>>, current: Seq<char>, status: Seq<char>) -> AnnotationChange {
    if anchor == Some(current) {
        if status == "stale"@ {
            AnnotationChange::Reactivate
        } else {
            AnnotationChange::Keep
        }
    } else if status == "active"@ {
        AnnotationChange::MarkStale
    } else {
        AnnotationChange::Keep
    }
}

/// Decide what happens to an annotation of a changed symbol.
pub fn annotation_change(anchor: Option<&str>, current: &str, status: &str) -> (r: AnnotationChange)
    ensures
        r == annotation_change_of(
            match anchor {
                Some(a) => Some(a@),
                None => None,
            },
            current@,
            status@,
        ),
{
    let matches = match anchor {
        Some(a) => same_text(a, current),
        None => false,
    };
    if matches {
        if same_text(status, "stale") {
            AnnotationChange::Reactivate
        } else {
            AnnotationChange::Keep
        }
    } else if same_text(status, "active") {
        AnnotationChange::MarkStale
    } else {
        AnnotationChange::Keep
    }
}

/// When code reverts to the hash an annotation was written against, a stale
/// annotation is reactivated; when it moves away, an active one goes stale;
/// nothing else changes an annotation of the changed symbol.
pub proof fn law_revert_reactivates(anchor: Option<Seq<char>>, current: Seq<char>, status: Seq<char>)
    ensures
        anchor == Some(current) && status == "stale"@ ==> annotation_change_of(anchor, current, status)
            == AnnotationChange::Reactivate,
        anchor != Some(current) && status == "active"@ ==> annotation_change_of(anchor, current, status)
            == AnnotationChange::MarkStale,
        annotation_change_of(anchor, current, status) == AnnotationChange::Reactivate ==> anchor == Some(
            current,
        ),
        annotation_change_of(anchor, current, status) == AnnotationChange::MarkStale ==> anchor != Some(
            current,
        ),
{
}

// ── Reach of the cascade ──────────────────────────────────────────────────

/// The reduction at distance `d` is `0.3 × 0.5^(d−1)`; it still matters
/// (is at least `0.01`) exactly when `30 ≥ 2^(d−1)`.
pub open spec fn reduction_matters(d: nat) -> bool {
    d == 0 || pow2((d - 1) as nat) <= 30
}

/// The farthest distance at which the cascade still reduces confidence.
pub const MAX_CASCADE_DISTANCE: usize = 5;

/// Whether callers at distance `d` still lose confidence.
pub fn within_cascade(d: usize) -> (b: bool)
    ensures
        b == reduction_matters(d as nat),
        b == (d <= MAX_CASCADE_DISTANCE),
{
    proof {
        lemma2_to64();
        if d > 6 {
            lemma_pow2_strictly_increases(5, (d - 1) as nat);
        }
    }
    d <= MAX_CASCADE_DISTANCE
}

// ── The walk ──────────────────────────────────────────────────────────────

/// Breadth-first walk over the callers of a changed symbol. Every symbol
/// enters the queue at most once, and the changed symbol never does.
pub struct CascadeWalk {
    trigger: String,
    queue: Vec<(String, usize)>,
    head: usize,
}

/// The callers among `callers` that are new: not in `known`, first
/// occurrence only, in order.
pub open spec fn fresh_callers(known: Seq<Seq<char>>, callers: Seq<Seq<char>>) -> Seq<Seq<char>>
    decreases callers.len(),
{
    if callers.len() == 0 {
        seq![]
    } else {
        let prev = fresh_callers(known, callers.drop_last());
        let c = callers.last();
        if known.contains(c) || prev.contains(c) {
            prev
        } else {
            prev.push(c)
        }
    }
}

pub open spec fn distinct(s: Seq<Seq<char>>) -> bool {
    forall|i: int, j: int| 0 <= i < j < s.len() ==> s[i] != s[j]
}

impl CascadeWalk {
    /// The symbol whose change started the cascade.
    pub closed spec fn trigger_id(&self) -> Seq<char> {
        self.trigger@
    }

    /// The symbols that entered the queue, in order.
    pub closed spec fn queue_ids(&self) -> Seq<Seq<char>> {
        self.queue@.map_values(|e: (String, usize)| e.0@)
    }

    /// Their distances from the changed symbol.
    pub closed spec fn queue_dists(&self) -> Seq<usize> {
        self.queue@.map_values(|e: (String, usize)| e.1)
    }

    /// How many queue entries were handed out.
    pub closed spec fn position(&self) -> nat {
        self.head as nat
    }

    /// The distance of the symbol handed out last (0 before the first).
    pub open spec fn current_distance(&self) -> int {
        if self.position() == 0 {
            0
        } else {
            self.queue_dists()[self.position() - 1] as int
        }
    }

    /// Every symbol known to the walk: the changed one and the queue.
    pub open spec fn known(&self) -> Seq<Seq<char>> {
        seq![self.trigger_id()] + self.queue_ids()
    }

    /// The walk's invariant: no symbol known twice, distances start at one
    /// and never decrease along the queue, and the entries not yet handed
    /// out lie at most one step beyond the current distance.
    pub open spec fn wf(&self) -> bool {
        let ids = self.queue_ids();
        let ds = self.queue_dists();
        &&& ids.len() == ds.len()
        &&& self.position() <= ids.len()
        &&& distinct(self.known())
        &&& forall|i: int| 0 <= i < ds.len() ==> 1 <= #[trigger] ds[i] <= MAX_CASCADE_DISTANCE + 1
        &&& forall|i: int, j: int| 0 <= i < j < ds.len() ==> ds[i] <= ds[j]
        &&& forall|i: int|
            self.position() <= i < ds.len() ==> #[trigger] ds[i] <= self.current_distance() + 1
    }

    proof fn lemma_views(&self)
        ensures
            self.queue_ids().len() == self.queue@.len(),
            self.queue_dists().len() == self.queue@.len(),
            forall|i: int|
                0 <= i < self.queue@.len() ==> #[trigger] self.queue_ids()[i] == self.queue@[i].0@
                    && self.queue_dists()[i] == self.queue@[i].1,
            self.position() == self.head,
            self.trigger_id() == self.trigger@,
    {
    }

    /// Whether `id` is known to the walk.
    fn is_known(&self, id: &str) -> (b: bool)
        ensures
            b == self.known().contains(id@),
    {
        proof {
            self.lemma_views();
        }
        if same_text(self.trigger.as_str(), id) {
            assert(self.known()[0] == id@);
            return true;
        }
        let mut i: usize = 0;
        while i < self.queue.len()
            invariant
                i <= self.queue.len(),
                self.trigger@ != id@,
                self.queue_ids().len() == self.queue@.len(),
                forall|k: int|
                    0 <= k < self.queue@.len() ==> #[trigger] self.queue_ids()[k] == self.queue@[k].0@,
                forall|k: int| 0 <= k < i ==> self.queue_ids()[k] != id@,
            decreases self.queue.len() - i,
        {
            if same_text(self.queue[i].0.as_str(), id) {
                assert(self.known()[i + 1] == id@);
                return true;
            }
            i = i + 1;
        }
        assert forall|k: int| 0 <= k < self.known().len() implies self.known()[k] != id@ by {
            if k > 0 {
                assert(self.known()[k] == self.queue_ids()[k - 1]);
            }
        }
        false
    }

    /// Appends the new ones among `callers` at one step beyond the current
    /// distance.
    pub fn add_callers(&mut self, callers: &Vec<String>)
        requires
            old(self).wf(),
            old(self).current_distance() <= MAX_CASCADE_DISTANCE,
        ensures
            final(self).wf(),
            final(self).trigger_id() == old(self).trigger_id(),
            final(self).position() == old(self).position(),
            final(self).queue_ids() == old(self).queue_ids() + fresh_callers(
                old(self).known(),
                callers@.map_values(|c: String| c@),
            ),
            final(self).queue_dists() == old(self).queue_dists() + Seq::new(
                fresh_callers(old(self).known(), callers@.map_values(|c: String| c@)).len(),
                |i: int| (old(self).current_distance() + 1) as usize,
            ),
    {
        let ghost k0 = self.known();
        let ghost ids0 = self.queue_ids();
        let ghost ds0 = self.queue_dists();
        let ghost cs = callers@.map_values(|c: String| c@);
        let d: usize = if self.head == 0 {
            1
        } else {
            self.queue[self.head - 1].1 + 1
        };
        proof {
            self.lemma_views();
        }
        let mut i: usize = 0;
        while i < callers.len()
            invariant
                i <= callers.len(),
                cs == callers@.map_values(|c: String| c@),
                self.wf(),
                d == self.current_distance() + 1,
                d <= MAX_CASCADE_DISTANCE + 1,
                self.trigger_id() == old(self).trigger_id(),
                self.position() == old(self).position(),
                self.current_distance() == old(self).current_distance(),
                k0 == old(self).known(),
                self.queue_ids() == ids0 + fresh_callers(k0, cs.subrange(0, i as int)),
                self.queue_dists() == ds0 + Seq::new(
                    fresh_callers(k0, cs.subrange(0, i as int)).len(),
                    |j: int| d,
                ),
                ids0 == old(self).queue_ids(),
                ds0 == old(self).queue_dists(),
                k0 == seq![old(self).trigger_id()] + ids0,
            decreases callers.len() - i,
        {
            let ghost sub = cs.subrange(0, i + 1);
            let ghost prev = fresh_callers(k0, cs.subrange(0, i as int));
            assert(sub.drop_last() =~= cs.subrange(0, i as int));
            assert(sub.last() == callers@[i as int]@);
            assert(self.known() =~= k0 + prev);
            let c = &callers[i];
            proof {
                self.lemma_views();
            }
            if !self.is_known(c.as_str()) {
                assert(!k0.contains(c@) && !prev.contains(c@)) by {
                    if k0.contains(c@) {
                        let j = choose|j: int| 0 <= j < k0.len() && k0[j] == c@;
                        assert(self.known()[j] == c@);
                    }
                    if prev.contains(c@) {
                        let j = choose|j: int| 0 <= j < prev.len() && prev[j] == c@;
                        assert(self.known()[k0.len() + j] == c@);
                    }
                }
                let ghost before_ids = self.queue_ids();
                let ghost before_ds = self.queue_dists();
                let ghost before_known = self.known();
                self.queue.push((c.clone(), d));
                proof {
                    self.lemma_views();
                    assert(self.queue_ids() =~= before_ids.push(c@));
                    assert(self.queue_dists() =~= before_ds.push(d));
                    assert(self.known() =~= before_known.push(c@));
                    assert(fresh_callers(k0, sub) == prev.push(c@));
                    assert(self.queue_ids() =~= ids0 + fresh_callers(k0, sub));
                    assert(self.queue_dists() =~= ds0 + Seq::new(fresh_callers(k0, sub).len(), |j: int| d));
                    assert forall|a: int, b: int| 0 <= a < b < self.known().len() implies self.known()[a]
                        != self.known()[b] by {
                        if b == self.known().len() - 1 {
                            assert(before_known[a] == self.known()[a]);
                        }
                    }
                }
            } else {
                proof {
                    assert(k0.contains(c@) || prev.contains(c@)) by {
                        let j = choose|j: int| 0 <= j < self.known().len() && self.known()[j] == c@;
                        if j < k0.len() {
                            assert(k0[j] == c@);
                        } else {
                            assert(prev[j - k0.len()] == c@);
                        }
                    }
                    assert(fresh_callers(k0, sub) == prev);
                }
            }
            i = i + 1;
        }
        assert(cs.subrange(0, callers.len() as int) =~= cs);
    }

    /// Starts the walk at a changed symbol with its direct callers, at
    /// distance one.
    pub fn new(trigger: &str, direct_callers: &Vec<String>) -> (w: CascadeWalk)
        ensures
            w.wf(),
            w.trigger_id() == trigger@,
            w.position() == 0,
            w.queue_ids() == fresh_callers(seq![trigger@], direct_callers@.map_values(|c: String| c@)),
            forall|i: int| 0 <= i < w.queue_dists().len() ==> #[trigger] w.queue_dists()[i] == 1,
    {
        let mut w = CascadeWalk { trigger: trigger.to_owned(), queue: Vec::new(), head: 0 };
        proof {
            w.lemma_views();
            assert(w.queue_ids() =~= seq![]);
            assert(w.known() =~= seq![trigger@]);
        }
        w.add_callers(direct_callers);
        assert(seq![trigger@] + Seq::<Seq<char>>::empty() =~= seq![trigger@]);
        w
    }

    /// Hands out the next symbol of the queue with its distance, if any.
    pub fn next(&mut self) -> (r: Option<(String, usize)>)
        requires
            old(self).wf(),
        ensures
            final(self).wf(),
            final(self).trigger_id() == old(self).trigger_id(),
            final(self).queue_ids() == old(self).queue_ids(),
            final(self).queue_dists() == old(self).queue_dists(),
            old(self).position() < old(self).queue_ids().len() ==> {
                &&& final(self).position() == old(self).position() + 1
                &&& r matches Some(e) && e.0@ == old(self).queue_ids()[old(self).position() as int]
                    && e.1 == old(self).queue_dists()[old(self).position() as int]
            },
            old(self).position() >= old(self).queue_ids().len() ==> r is None && final(self).position()
                == old(self).position(),
    {
        proof {
            self.lemma_views();
        }
        if self.head < self.queue.len() {
            let e = (self.queue[self.head].0.clone(), self.queue[self.head].1);
            self.head = self.head + 1;
            proof {
                self.lemma_views();
            }
            Some(e)
        } else {
            None
        }
    }
}

// ── Laws ──────────────────────────────────────────────────────────────────

/// No symbol is visited twice by a cascade, and the changed symbol is never
/// among the affected ones: diamonds in the call graph count once.
pub proof fn law_each_symbol_once(w: CascadeWalk)
    requires
        w.wf(),
    ensures
        distinct(w.queue_ids()),
        !w.queue_ids().contains(w.trigger_id()),
{
    assert forall|i: int, j: int| 0 <= i < j < w.queue_ids().len() implies w.queue_ids()[i]
        != w.queue_ids()[j] by {
        assert(w.known()[i + 1] == w.queue_ids()[i]);
        assert(w.known()[j + 1] == w.queue_ids()[j]);
    }
    if w.queue_ids().contains(w.trigger_id()) {
        let k = choose|k: int| 0 <= k < w.queue_ids().len() && w.queue_ids()[k] == w.trigger_id();
        assert(w.known()[k + 1] == w.known()[0]);
    }
}

/// The walk is breadth first: distances never decrease along the queue,
/// and none lies beyond one step past the cascade's reach.
pub proof fn law_breadth_first(w: CascadeWalk, i: int, j: int)
    requires
        w.wf(),
        0 <= i < j < w.queue_dists().len(),
    ensures
        w.queue_dists()[i] <= w.queue_dists()[j],
        1 <= w.queue_dists()[j] <= MAX_CASCADE_DISTANCE + 1,
{
}

} // verus!

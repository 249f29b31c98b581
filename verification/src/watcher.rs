//! Decisions of the file watcher: which file events matter, when a batch
//! of changes is ready, and what to run after a batch.
use vstd::prelude::*;
use crate::parser::languages::same_text;
use crate::parser::{detect_language, language_of_path};

verus! {

/// Debounce window for file events, in milliseconds.
pub const DEBOUNCE_MS: u64 = 3000;

/// The kinds of file system events the watcher sees.
#[derive(Debug, Clone, Copy, PartialEq, Eq, Structural)]
pub enum FsEventKind {
    Create,
    Modify,
    Remove,
    Other,
}

/// Creations, modifications and removals are reindexed.
pub fn is_relevant(kind: FsEventKind) -> (b: bool)
    ensures
        b == (kind != FsEventKind::Other),
{
    match kind {
        FsEventKind::Create | FsEventKind::Modify | FsEventKind::Remove => true,
        FsEventKind::Other => false,
    }
}

/// Collects changed paths and hands them out in batches once no event has
/// arrived for the debounce window.
pub struct Debouncer {
    pending: Vec<String>,
    last_event_ms: u64,
}

impl Debouncer {
    /// The paths waiting for the next batch.
    pub closed spec fn pending_view(&self) -> Seq<Seq<char>> {
        self.pending@.map_values(|p: String| p@)
    }

    /// When the last relevant event arrived.
    pub closed spec fn last_event(&self) -> u64 {
        self.last_event_ms
    }

    /// A debouncer with nothing pending, started at `now_ms`.
    pub fn new(now_ms: u64) -> (d: Debouncer)
        ensures
            d.pending_view().len() == 0,
            d.last_event() == now_ms,
    {
        let d = Debouncer { pending: Vec::new(), last_event_ms: now_ms };
        assert(d.pending_view() =~= seq![]);
        d
    }

    /// Records the paths of an event at `now_ms`: those of a language the
    /// parser knows are added, and each restarts the window.
    pub fn on_event(&mut self, kind: FsEventKind, paths: &Vec<String>, now_ms: u64)
        ensures
            final(self).pending_view() == old(self).pending_view() + if kind != FsEventKind::Other {
                paths@.map_values(|p: String| p@).filter(|p: Seq<char>| language_of_path(p) is Some)
            } else {
                seq![]
            },
            final(self).last_event() == if kind != FsEventKind::Other && paths@.map_values(
                |p: String| p@,
            ).filter(|p: Seq<char>| language_of_path(p) is Some).len() > 0 {
                now_ms
            } else {
                old(self).last_event()
            },
    {
        let ghost ps = paths@.map_values(|p: String| p@);
        let ghost pred = |p: Seq<char>| language_of_path(p) is Some;
        let ghost start = self.pending_view();
        if !is_relevant(kind) {
            assert(start + Seq::<Seq<char>>::empty() =~= start);
            return;
        }
        let mut i: usize = 0;
        while i < paths.len()
            invariant
                i <= paths.len(),
                ps == paths@.map_values(|p: String| p@),
                pred == (|p: Seq<char>| language_of_path(p) is Some),
                self.pending_view() == start + ps.subrange(0, i as int).filter(pred),
                self.last_event() == if ps.subrange(0, i as int).filter(pred).len() > 0 {
                    now_ms
                } else {
                    old(self).last_event()
                },
            decreases paths.len() - i,
        {
            proof {
                reveal(Seq::filter);
                let sub = ps.subrange(0, i + 1);
                assert(sub.drop_last() =~= ps.subrange(0, i as int));
                assert(sub.last() == paths@[i as int]@);
            }
            let ghost before = self.pending_view();
            if detect_language(paths[i].as_str()).is_some() {
                self.pending.push(paths[i].clone());
                self.last_event_ms = now_ms;
                assert(self.pending_view() =~= before.push(paths@[i as int]@));
            } else {
                assert(self.pending_view() =~= before);
            }
            i = i + 1;
        }
        assert(ps.subrange(0, paths.len() as int) =~= ps);
    }

    /// At a quiet moment `now_ms`: the pending paths, when there are some
    /// and the window has passed since the last event; they are then no
    /// longer pending.
    pub fn on_timeout(&mut self, now_ms: u64) -> (r: Option<Vec<String>>)
        ensures
            (old(self).pending_view().len() > 0 && now_ms >= old(self).last_event() + DEBOUNCE_MS)
                ==> (r matches Some(b) && b@.map_values(|p: String| p@) == old(self).pending_view()
                && final(self).pending_view().len() == 0),
            !(old(self).pending_view().len() > 0 && now_ms >= old(self).last_event() + DEBOUNCE_MS)
                ==> (r is None && final(self).pending_view() == old(self).pending_view()),
            final(self).last_event() == old(self).last_event(),
    {
        if self.pending.len() > 0 && now_ms >= self.last_event_ms && now_ms - self.last_event_ms >= DEBOUNCE_MS {
            let mut batch: Vec<String> = Vec::new();
            std::mem::swap(&mut batch, &mut self.pending);
            assert(self.pending_view() =~= seq![]);
            Some(batch)
        } else {
            None
        }
    }
}

/// The paths of a batch, each once, in order of first appearance.
pub open spec fn unique_paths(ps: Seq<Seq<char>>, k: int) -> Seq<Seq<char>>
    decreases k,
{
    if k <= 0 {
        seq![]
    } else {
        let prev = unique_paths(ps, k - 1);
        if prev.contains(ps[k - 1]) {
            prev
        } else {
            prev.push(ps[k - 1])
        }
    }
}

/// The distinct paths of a batch.
pub fn dedup_paths(paths: &Vec<String>) -> (r: Vec<String>)
    ensures
        r@.map_values(|p: String| p@) == unique_paths(paths@.map_values(|p: String| p@), paths@.len() as int),
{
    let ghost ps = paths@.map_values(|p: String| p@);
    let mut r: Vec<String> = Vec::new();
    let mut i: usize = 0;
    while i < paths.len()
        invariant
            i <= paths.len(),
            ps == paths@.map_values(|p: String| p@),
            r@.map_values(|p: String| p@) == unique_paths(ps, i as int),
        decreases paths.len() - i,
    {
        let ghost rv = r@.map_values(|p: String| p@);
        let mut seen = false;
        let mut j: usize = 0;
        while j < r.len()
            invariant
                j <= r.len(),
                i < paths.len(),
                rv == r@.map_values(|p: String| p@),
                seen <==> exists|k: int| 0 <= k < j && rv[k] == paths@[i as int]@,
            decreases r.len() - j,
        {
            assert(rv[j as int] == r@[j as int]@);
            if same_text(r[j].as_str(), paths[i].as_str()) {
                seen = true;
            }
            j = j + 1;
        }
        proof {
            assert(ps[i as int] == paths@[i as int]@);
            if seen {
                let k = choose|k: int| 0 <= k < r.len() && rv[k] == paths@[i as int]@;
                assert(rv.contains(ps[i as int]));
            } else {
                assert(!rv.contains(ps[i as int]));
            }
        }
        if !seen {
            r.push(paths[i].clone());
            assert(r@.map_values(|p: String| p@) =~= rv.push(ps[i as int]));
        }
        i = i + 1;
    }
    r
}

/// What to run after a batch has been indexed.
#[derive(Debug, Clone, Copy, PartialEq, Eq, Structural)]
pub struct AfterBatch {
    /// Drop the data of deleted files.
    pub collect_garbage: bool,
    /// Look for files that were renamed.
    pub detect_renames: bool,
    /// Look for contradicting annotations.
    pub scan_contradictions: bool,
}

/// The follow-up work for a batch with `changed` reindexed files and
/// `deleted` deleted ones.
pub fn after_batch(changed: usize, deleted: usize) -> (a: AfterBatch)
    ensures
        a.collect_garbage == (deleted > 0),
        a.detect_renames == (deleted > 0 && changed > 0),
        a.scan_contradictions == (changed > 0),
{
    AfterBatch {
        collect_garbage: deleted > 0,
        detect_renames: deleted > 0 && changed > 0,
        scan_contradictions: changed > 0,
    }
}

} // verus!

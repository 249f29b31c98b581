//! Temporal layer: how symbols evolve between two versions of a file, and
//! when a new file is a renamed old one.
use vstd::prelude::*;
use crate::graph::SymbolRow;
use crate::parser::languages::same_text;
use crate::parser::treesitter::Symbol;
use crate::text::push_str;

verus! {

/// How a symbol changed.
#[derive(Debug, Clone, Copy, PartialEq, Eq, Structural)]
pub enum ChangeKind {
    Created,
    Modified,
    Deleted,
    Moved,
}

/// The stored name of a change.
pub open spec fn change_name(k: ChangeKind) -> Seq<char> {
    match k {
        ChangeKind::Created => "created"@,
        ChangeKind::Modified => "modified"@,
        ChangeKind::Deleted => "deleted"@,
        ChangeKind::Moved => "moved"@,
    }
}

impl ChangeKind {
    pub fn as_str(&self) -> (s: &'static str)
        ensures
            s@ == change_name(*self),
    {
        match self {
            ChangeKind::Created => "created",
            ChangeKind::Modified => "modified",
            ChangeKind::Deleted => "deleted",
            ChangeKind::Moved => "moved",
        }
    }
}

/// One entry of a symbol's history.
#[derive(Debug)]
pub struct EvolutionEvent {
    pub symbol_id: String,
    pub change: ChangeKind,
    pub old_hash: Option<String>,
    pub new_hash: Option<String>,
    pub old_file: Option<String>,
    pub new_file: Option<String>,
    pub description: String,
}

pub open spec fn ostr(o: Option<String>) -> Option<Seq<char>> {
    match o {
        Some(s) => Some(s@),
        None => None,
    }
}

/// An event as (symbol, change, old hash, new hash, old file, new file,
/// description).
pub open spec fn event_view(e: EvolutionEvent) -> (
    Seq<char>,
    ChangeKind,
    Option<Seq<char>>,
    Option<Seq<char>>,
    Option<Seq<char>>,
    Option<Seq<char>>,
    Seq<char>,
) {
    (e.symbol_id@, e.change, ostr(e.old_hash), ostr(e.new_hash), ostr(e.old_file), ostr(e.new_file), e.description@)
}

pub open spec fn event_views(es: Seq<EvolutionEvent>) -> Seq<
    (Seq<char>, ChangeKind, Option<Seq<char>>, Option<Seq<char>>, Option<Seq<char>>, Option<Seq<char>>, Seq<char>),
> {
    es.map_values(|e: EvolutionEvent| event_view(e))
}

// ── Evolution within a file ───────────────────────────────────────────────

/// The last of the first `k` stored symbols named `name` (a map keyed by
/// name keeps the last one).
pub open spec fn last_old_named(old: Seq<SymbolRow>, name: Seq<char>, k: int) -> Option<int>
    decreases k,
{
    if k <= 0 {
        None
    } else if old[k - 1].name@ == name {
        Some(k - 1)
    } else {
        last_old_named(old, name, k - 1)
    }
}

/// Whether a new symbol named `name` exists.
pub open spec fn new_has_name(new: Seq<Symbol>, name: Seq<char>) -> bool {
    exists|j: int| 0 <= j < new.len() && new[j].name@ == name
}

/// Symbol `k` is the last new symbol with its name.
pub open spec fn last_of_name_new(new: Seq<Symbol>, k: int) -> bool {
    forall|j: int| k < j < new.len() ==> new[j].name@ != new[k].name@
}

/// Stored symbol `k` is the last stored symbol with its name.
pub open spec fn last_of_name_old(old: Seq<SymbolRow>, k: int) -> bool {
    forall|j: int| k < j < old.len() ==> old[j].name@ != old[k].name@
}

/// The events for the first `k` new symbols: a symbol new by name is
/// created; one whose name was there with another full hash is modified.
pub open spec fn new_events(old: Seq<SymbolRow>, new: Seq<Symbol>, file: Seq<char>, k: int) -> Seq<
    (Seq<char>, ChangeKind, Option<Seq<char>>, Option<Seq<char>>, Option<Seq<char>>, Option<Seq<char>>, Seq<char>),
>
    decreases k,
{
    if k <= 0 {
        seq![]
    } else {
        let prev = new_events(old, new, file, k - 1);
        let s = new[k - 1];
        if !last_of_name_new(new, k - 1) {
            prev
        } else {
            match last_old_named(old, s.name@, old.len() as int) {
                Some(o) => if old[o].full_hash@ != s.full_hash@ {
                    prev.push(
                        (
                            s.id@,
                            ChangeKind::Modified,
                            Some(old[o].full_hash@),
                            Some(s.full_hash@),
                            Some(file),
                            Some(file),
                            "body changed in "@ + file,
                        ),
                    )
                } else {
                    prev
                },
                None => prev.push(
                    (s.id@, ChangeKind::Created, None, Some(s.full_hash@), None, Some(file), "added to "@ + file),
                ),
            }
        }
    }
}

/// The events for the first `k` stored symbols: a name no longer present
/// is deleted.
pub open spec fn old_events(old: Seq<SymbolRow>, new: Seq<Symbol>, file: Seq<char>, k: int) -> Seq<
    (Seq<char>, ChangeKind, Option<Seq<char>>, Option<Seq<char>>, Option<Seq<char>>, Option<Seq<char>>, Seq<char>),
>
    decreases k,
{
    if k <= 0 {
        seq![]
    } else {
        let prev = old_events(old, new, file, k - 1);
        let s = old[k - 1];
        if last_of_name_old(old, k - 1) && !new_has_name(new, s.name@) {
            prev.push(
                (s.id@, ChangeKind::Deleted, Some(s.full_hash@), None, Some(file), None, "removed from "@ + file),
            )
        } else {
            prev
        }
    }
}

/// The changes between the stored and the new symbols of a file, compared
/// by name.
pub open spec fn evolution_of(old: Seq<SymbolRow>, new: Seq<Symbol>, file: Seq<char>) -> Seq<
    (Seq<char>, ChangeKind, Option<Seq<char>>, Option<Seq<char>>, Option<Seq<char>>, Option<Seq<char>>, Seq<char>),
> {
    new_events(old, new, file, new.len() as int) + old_events(old, new, file, old.len() as int)
}

/// The stored and new symbols agree one by one on name and full hash.
pub open spec fn same_symbols(old: Seq<SymbolRow>, new: Seq<Symbol>) -> bool {
    &&& old.len() == new.len()
    &&& forall|i: int|
        0 <= i < old.len() ==> (#[trigger] old[i]).name@ == new[i].name@ && old[i].full_hash@
            == new[i].full_hash@
}

proof fn lemma_last_old_is_last_new(old: Seq<SymbolRow>, new: Seq<Symbol>, k: int, n: int)
    requires
        same_symbols(old, new),
        0 <= k < n <= old.len(),
        forall|j: int| k < j < n ==> new[j].name@ != new[k].name@,
    ensures
        last_old_named(old, new[k].name@, n) == Some(k),
    decreases n,
{
    if n - 1 > k {
        assert(old[n - 1].name@ == new[n - 1].name@);
        lemma_last_old_is_last_new(old, new, k, n - 1);
    } else {
        assert(old[k].name@ == new[k].name@);
    }
}

proof fn lemma_no_new_events(old: Seq<SymbolRow>, new: Seq<Symbol>, file: Seq<char>, k: int)
    requires
        same_symbols(old, new),
        k <= new.len(),
    ensures
        new_events(old, new, file, k).len() == 0,
    decreases k,
{
    if k > 0 {
        lemma_no_new_events(old, new, file, k - 1);
        if last_of_name_new(new, k - 1) {
            lemma_last_old_is_last_new(old, new, k - 1, old.len() as int);
            assert(old[k - 1].full_hash@ == new[k - 1].full_hash@);
        }
    }
}

proof fn lemma_no_old_events(old: Seq<SymbolRow>, new: Seq<Symbol>, file: Seq<char>, k: int)
    requires
        same_symbols(old, new),
        k <= old.len(),
    ensures
        old_events(old, new, file, k).len() == 0,
    decreases k,
{
    if k > 0 {
        lemma_no_old_events(old, new, file, k - 1);
        assert(old[k - 1].name@ == new[k - 1].name@);
        assert(new_has_name(new, old[k - 1].name@));
    }
}

/// A file whose symbols come back with the same names and full hashes, in
/// the same order, has no history to record.
pub proof fn law_unchanged_file_no_events(old: Seq<SymbolRow>, new: Seq<Symbol>, file: Seq<char>)
    requires
        same_symbols(old, new),
    ensures
        evolution_of(old, new, file).len() == 0,
{
    lemma_no_new_events(old, new, file, new.len() as int);
    lemma_no_old_events(old, new, file, old.len() as int);
}

proof fn lemma_last_old_named_none(old: Seq<SymbolRow>, name: Seq<char>, k: int)
    requires
        k <= old.len(),
        forall|o: int| 0 <= o < old.len() ==> (#[trigger] old[o]).name@ != name,
    ensures
        last_old_named(old, name, k) is None,
    decreases k,
{
    if k > 0 {
        lemma_last_old_named_none(old, name, k - 1);
    }
}

proof fn lemma_last_old_named_some(old: Seq<SymbolRow>, name: Seq<char>, k: int)
    requires
        k <= old.len(),
    ensures
        last_old_named(old, name, k) matches Some(o) ==> 0 <= o < k && old[o].name@ == name,
    decreases k,
{
    if k > 0 {
        lemma_last_old_named_some(old, name, k - 1);
    }
}

/// The event a new symbol that the stored file did not have by name gives.
pub open spec fn created_event(s: Symbol, file: Seq<char>) -> (
    Seq<char>,
    ChangeKind,
    Option<Seq<char>>,
    Option<Seq<char>>,
    Option<Seq<char>>,
    Option<Seq<char>>,
    Seq<char>,
) {
    (s.id@, ChangeKind::Created, None, Some(s.full_hash@), None, Some(file), "added to "@ + file)
}

proof fn lemma_new_events_has_created(old: Seq<SymbolRow>, new: Seq<Symbol>, file: Seq<char>, k: int, n: int)
    requires
        0 <= k < n <= new.len(),
        forall|j: int| k < j < new.len() ==> (#[trigger] new[j]).name@ != new[k].name@,
        forall|o: int| 0 <= o < old.len() ==> (#[trigger] old[o]).name@ != new[k].name@,
    ensures
        new_events(old, new, file, n).contains(created_event(new[k], file)),
    decreases n,
{
    let prev = new_events(old, new, file, n - 1);
    if n - 1 == k {
        lemma_last_old_named_none(old, new[k].name@, old.len() as int);
        assert(new_events(old, new, file, n) == prev.push(created_event(new[k], file)));
        assert(new_events(old, new, file, n)[prev.len() as int] == created_event(new[k], file));
    } else {
        lemma_new_events_has_created(old, new, file, k, n - 1);
        let q = choose|q: int| 0 <= q < prev.len() && prev[q] == created_event(new[k], file);
        let cur = new_events(old, new, file, n);
        assert(cur.len() >= prev.len() && cur[q] == prev[q]);
    }
}

proof fn lemma_new_events_created_sound(old: Seq<SymbolRow>, new: Seq<Symbol>, file: Seq<char>, n: int)
    requires
        n <= new.len(),
    ensures
        forall|q: int|
            0 <= q < new_events(old, new, file, n).len() && (#[trigger] new_events(old, new, file, n)[q]).1
                == ChangeKind::Created ==> exists|k: int|
                0 <= k < n && new_events(old, new, file, n)[q].0 == (#[trigger] new[k]).id@ && forall|o: int|
                    0 <= o < old.len() ==> (#[trigger] old[o]).name@ != new[k].name@,
    decreases n,
{
    if n > 0 {
        lemma_new_events_created_sound(old, new, file, n - 1);
        lemma_last_old_named_some(old, new[n - 1].name@, old.len() as int);
        let prev = new_events(old, new, file, n - 1);
        let cur = new_events(old, new, file, n);
        assert forall|q: int| 0 <= q < cur.len() && (#[trigger] cur[q]).1 == ChangeKind::Created implies exists|k: int|
            0 <= k < n && cur[q].0 == (#[trigger] new[k]).id@ && forall|o: int|
                0 <= o < old.len() ==> (#[trigger] old[o]).name@ != new[k].name@ by {
            if q < prev.len() {
                assert(cur[q] == prev[q]);
                let k = choose|k: int|
                    0 <= k < n - 1 && prev[q].0 == (#[trigger] new[k]).id@ && forall|o: int|
                        0 <= o < old.len() ==> (#[trigger] old[o]).name@ != new[k].name@;
                assert(0 <= k < n);
            } else {
                assert(cur[q].0 == new[n - 1].id@);
                assert forall|o: int| 0 <= o < old.len() implies (#[trigger] old[o]).name@ != new[n - 1].name@ by {
                    if old[o].name@ == new[n - 1].name@ {
                        assert(last_old_named(old, new[n - 1].name@, old.len() as int) is Some) by {
                            if last_old_named(old, new[n - 1].name@, old.len() as int) is None {
                                lemma_last_old_named_found(old, new[n - 1].name@, o, old.len() as int);
                            }
                        }
                    }
                }
            }
        }
    }
}

proof fn lemma_last_old_named_found(old: Seq<SymbolRow>, name: Seq<char>, o: int, k: int)
    requires
        0 <= o < k <= old.len(),
        old[o].name@ == name,
    ensures
        last_old_named(old, name, k) is Some,
    decreases k,
{
    if k - 1 != o && old[k - 1].name@ != name {
        lemma_last_old_named_found(old, name, o, k - 1);
    }
}

/// Law: a new symbol whose name the stored file did not have is reported
/// as created (for the last new symbol of that name), whatever else the
/// file held; and every created event is such a symbol's.
pub proof fn law_new_names_created(old: Seq<SymbolRow>, new: Seq<Symbol>, file: Seq<char>)
    ensures
        forall|k: int|
            0 <= k < new.len() && (forall|j: int| k < j < new.len() ==> (#[trigger] new[j]).name@ != new[k].name@)
                && (forall|o: int| 0 <= o < old.len() ==> (#[trigger] old[o]).name@ != new[k].name@)
                ==> evolution_of(old, new, file).contains(#[trigger] created_event(new[k], file)),
        forall|q: int|
            0 <= q < evolution_of(old, new, file).len() && (#[trigger] evolution_of(old, new, file)[q]).1
                == ChangeKind::Created ==> exists|k: int|
                0 <= k < new.len() && evolution_of(old, new, file)[q].0 == (#[trigger] new[k]).id@ && forall|o: int|
                    0 <= o < old.len() ==> (#[trigger] old[o]).name@ != new[k].name@,
{
    let ne = new_events(old, new, file, new.len() as int);
    let oe = old_events(old, new, file, old.len() as int);
    let ev = evolution_of(old, new, file);
    assert(ev == ne + oe);
    assert forall|k: int|
        0 <= k < new.len() && (forall|j: int| k < j < new.len() ==> (#[trigger] new[j]).name@ != new[k].name@)
            && (forall|o: int| 0 <= o < old.len() ==> (#[trigger] old[o]).name@ != new[k].name@)
        implies ev.contains(#[trigger] created_event(new[k], file)) by {
        lemma_new_events_has_created(old, new, file, k, new.len() as int);
        let q = choose|q: int| 0 <= q < ne.len() && ne[q] == created_event(new[k], file);
        assert(ev[q] == ne[q]);
    }
    lemma_new_events_created_sound(old, new, file, new.len() as int);
    lemma_old_events_deleted(old, new, file, old.len() as int);
    assert forall|q: int| 0 <= q < ev.len() && (#[trigger] ev[q]).1 == ChangeKind::Created implies exists|k: int|
        0 <= k < new.len() && ev[q].0 == (#[trigger] new[k]).id@ && forall|o: int|
            0 <= o < old.len() ==> (#[trigger] old[o]).name@ != new[k].name@ by {
        if q < ne.len() {
            assert(ev[q] == ne[q]);
        } else {
            assert(ev[q] == oe[q - ne.len()]);
        }
    }
}

proof fn lemma_old_events_has_deleted(old: Seq<SymbolRow>, new: Seq<Symbol>, file: Seq<char>, k: int, n: int)
    requires
        0 <= k < n <= old.len(),
        forall|j: int| k < j < old.len() ==> (#[trigger] old[j]).name@ != old[k].name@,
        forall|j: int| 0 <= j < new.len() ==> (#[trigger] new[j]).name@ != old[k].name@,
    ensures
        old_events(old, new, file, n).contains(
            (old[k].id@, ChangeKind::Deleted, Some(old[k].full_hash@), None, Some(file), None, "removed from "@ + file),
        ),
    decreases n,
{
    let e = (old[k].id@, ChangeKind::Deleted, Some(old[k].full_hash@), None::<Seq<char>>, Some(file), None::<Seq<char>>, "removed from "@ + file);
    let prev = old_events(old, new, file, n - 1);
    let cur = old_events(old, new, file, n);
    if n - 1 == k {
        assert(!new_has_name(new, old[k].name@));
        assert(cur == prev.push(e));
        assert(cur[prev.len() as int] == e);
    } else {
        lemma_old_events_has_deleted(old, new, file, k, n - 1);
        let q = choose|q: int| 0 <= q < prev.len() && prev[q] == e;
        assert(cur.len() >= prev.len() && cur[q] == prev[q]);
    }
}

/// Law: a stored symbol whose name the new version of the file lacks is
/// reported as deleted (for the last stored symbol of that name), whatever
/// else the file holds.
pub proof fn law_missing_names_deleted(old: Seq<SymbolRow>, new: Seq<Symbol>, file: Seq<char>, k: int)
    requires
        0 <= k < old.len(),
        forall|j: int| k < j < old.len() ==> (#[trigger] old[j]).name@ != old[k].name@,
        forall|j: int| 0 <= j < new.len() ==> (#[trigger] new[j]).name@ != old[k].name@,
    ensures
        evolution_of(old, new, file).contains(
            (old[k].id@, ChangeKind::Deleted, Some(old[k].full_hash@), None, Some(file), None, "removed from "@ + file),
        ),
{
    let e = (old[k].id@, ChangeKind::Deleted, Some(old[k].full_hash@), None::<Seq<char>>, Some(file), None::<Seq<char>>, "removed from "@ + file);
    let ne = new_events(old, new, file, new.len() as int);
    let oe = old_events(old, new, file, old.len() as int);
    lemma_old_events_has_deleted(old, new, file, k, old.len() as int);
    let q = choose|q: int| 0 <= q < oe.len() && oe[q] == e;
    assert((ne + oe)[ne.len() + q] == oe[q]);
}

proof fn lemma_old_events_deleted(old: Seq<SymbolRow>, new: Seq<Symbol>, file: Seq<char>, n: int)
    requires
        n <= old.len(),
    ensures
        forall|q: int| 0 <= q < old_events(old, new, file, n).len() ==> (#[trigger] old_events(old, new, file, n)[q]).1
            == ChangeKind::Deleted,
    decreases n,
{
    if n > 0 {
        lemma_old_events_deleted(old, new, file, n - 1);
        let prev = old_events(old, new, file, n - 1);
        let cur = old_events(old, new, file, n);
        assert forall|q: int| 0 <= q < cur.len() implies (#[trigger] cur[q]).1 == ChangeKind::Deleted by {
            if q < prev.len() {
                assert(cur[q] == prev[q]);
            }
        }
    }
}

fn last_old_index(old: &Vec<SymbolRow>, name: &str) -> (r: Option<usize>)
    ensures
        match r {
            Some(o) => o < old.len() && last_old_named(old@, name@, old.len() as int) == Some(o as int),
            None => last_old_named(old@, name@, old.len() as int) is None,
        },
{
    let mut k: usize = old.len();
    while k > 0
        invariant
            k <= old.len(),
            last_old_named(old@, name@, old.len() as int) == last_old_named(old@, name@, k as int),
        decreases k,
    {
        if same_text(old[k - 1].name.as_str(), name) {
            return Some(k - 1);
        }
        k = k - 1;
    }
    None
}

fn is_last_new(new: &Vec<Symbol>, k: usize) -> (b: bool)
    requires
        k < new.len(),
    ensures
        b == last_of_name_new(new@, k as int),
{
    let mut j: usize = k + 1;
    while j < new.len()
        invariant
            k < j <= new.len(),
            forall|q: int| k < q < j ==> new@[q].name@ != new@[k as int].name@,
        decreases new.len() - j,
    {
        if same_text(new[j].name.as_str(), new[k].name.as_str()) {
            return false;
        }
        j = j + 1;
    }
    true
}

fn is_last_old(old: &Vec<SymbolRow>, k: usize) -> (b: bool)
    requires
        k < old.len(),
    ensures
        b == last_of_name_old(old@, k as int),
{
    let mut j: usize = k + 1;
    while j < old.len()
        invariant
            k < j <= old.len(),
            forall|q: int| k < q < j ==> old@[q].name@ != old@[k as int].name@,
        decreases old.len() - j,
    {
        if same_text(old[j].name.as_str(), old[k].name.as_str()) {
            return false;
        }
        j = j + 1;
    }
    true
}

fn has_new_named(new: &Vec<Symbol>, name: &str) -> (b: bool)
    ensures
        b == new_has_name(new@, name@),
{
    let mut j: usize = 0;
    while j < new.len()
        invariant
            j <= new.len(),
            forall|q: int| 0 <= q < j ==> new@[q].name@ != name@,
        decreases new.len() - j,
    {
        if same_text(new[j].name.as_str(), name) {
            return true;
        }
        j = j + 1;
    }
    false
}

fn text_after(prefix: &str, file: &str) -> (r: String)
    ensures
        r@ == prefix@ + file@,
{
    let mut s = String::new();
    push_str(&mut s, prefix);
    push_str(&mut s, file);
    s
}

/// The changes between the stored symbols of a file and its new parse.
pub fn track_evolution(old: &Vec<SymbolRow>, new: &Vec<Symbol>, file: &str) -> (r: Vec<EvolutionEvent>)
    ensures
        event_views(r@) == evolution_of(old@, new@, file@),
{
    proof {
        reveal_strlit("body changed in ");
        reveal_strlit("added to ");
        reveal_strlit("removed from ");
    }
    let mut out: Vec<EvolutionEvent> = Vec::new();
    let mut k: usize = 0;
    while k < new.len()
        invariant
            k <= new.len(),
            event_views(out@) == new_events(old@, new@, file@, k as int),
        decreases new.len() - k,
    {
        let ghost before = event_views(out@);
        let s = &new[k];
        if is_last_new(new, k) {
            match last_old_index(old, s.name.as_str()) {
                Some(o) => {
                    if !same_text(old[o].full_hash.as_str(), s.full_hash.as_str()) {
                        let e = EvolutionEvent {
                            symbol_id: s.id.clone(),
                            change: ChangeKind::Modified,
                            old_hash: Some(old[o].full_hash.clone()),
                            new_hash: Some(s.full_hash.clone()),
                            old_file: Some(file.to_owned()),
                            new_file: Some(file.to_owned()),
                            description: text_after("body changed in ", file),
                        };
                        out.push(e);
                        assert(event_views(out@) =~= before.push(event_view(e)));
                    } else {
                        assert(event_views(out@) =~= before);
                    }
                },
                None => {
                    let e = EvolutionEvent {
                        symbol_id: s.id.clone(),
                        change: ChangeKind::Created,
                        old_hash: None,
                        new_hash: Some(s.full_hash.clone()),
                        old_file: None,
                        new_file: Some(file.to_owned()),
                        description: text_after("added to ", file),
                    };
                    out.push(e);
                    assert(event_views(out@) =~= before.push(event_view(e)));
                },
            }
        } else {
            assert(event_views(out@) =~= before);
        }
        k = k + 1;
    }
    let ghost created = event_views(out@);
    let mut k: usize = 0;
    while k < old.len()
        invariant
            k <= old.len(),
            created == new_events(old@, new@, file@, new@.len() as int),
            event_views(out@) == created + old_events(old@, new@, file@, k as int),
        decreases old.len() - k,
    {
        let ghost before = event_views(out@);
        let s = &old[k];
        if is_last_old(old, k) && !has_new_named(new, s.name.as_str()) {
            let e = EvolutionEvent {
                symbol_id: s.id.clone(),
                change: ChangeKind::Deleted,
                old_hash: Some(s.full_hash.clone()),
                new_hash: None,
                old_file: Some(file.to_owned()),
                new_file: None,
                description: text_after("removed from ", file),
            };
            out.push(e);
            assert(event_views(out@) =~= before.push(event_view(e)));
        } else {
            assert(event_views(out@) =~= before);
        }
        k = k + 1;
    }
    out
}

// ── Renames ───────────────────────────────────────────────────────────────

/// The last stored symbol with body hash `h` (a map keyed by body hash
/// keeps the last one).
pub open spec fn last_with_body(old: Seq<SymbolRow>, h: Seq<char>, k: int) -> Option<int>
    decreases k,
{
    if k <= 0 {
        None
    } else if old[k - 1].body_hash@ == h {
        Some(k - 1)
    } else {
        last_with_body(old, h, k - 1)
    }
}

/// How many of the first `k` new symbols have a body hash of the old file.
pub open spec fn matching_bodies(old: Seq<SymbolRow>, new: Seq<Symbol>, k: int) -> nat
    decreases k,
{
    if k <= 0 {
        0
    } else {
        matching_bodies(old, new, k - 1) + if last_with_body(old, new[k - 1].body_hash@, old.len() as int) is Some {
            1nat
        } else {
            0nat
        }
    }
}

/// A created file is a rename of a deleted one when the deleted file had
/// symbols and at least half of them are matched by bodies of the new one.
pub open spec fn is_rename(old: Seq<SymbolRow>, new: Seq<Symbol>) -> bool {
    let m = matching_bodies(old, new, new.len() as int);
    old.len() > 0 && m > 0 && m * 2 >= old.len()
}

/// The `moved` events of a rename, for the first `k` new symbols.
pub open spec fn moved_events(old: Seq<SymbolRow>, new: Seq<Symbol>, from: Seq<char>, to: Seq<char>, k: int) -> Seq<
    (Seq<char>, ChangeKind, Option<Seq<char>>, Option<Seq<char>>, Option<Seq<char>>, Option<Seq<char>>, Seq<char>),
>
    decreases k,
{
    if k <= 0 {
        seq![]
    } else {
        let prev = moved_events(old, new, from, to, k - 1);
        let s = new[k - 1];
        match last_with_body(old, s.body_hash@, old.len() as int) {
            Some(o) => prev.push(
                (
                    s.id@,
                    ChangeKind::Moved,
                    Some(old[o].full_hash@),
                    Some(s.full_hash@),
                    Some(from),
                    Some(to),
                    "moved from "@ + from + " to "@ + to,
                ),
            ),
            None => prev,
        }
    }
}

/// Some stored symbol has the body hash `h`.
pub open spec fn old_has_body(old: Seq<SymbolRow>, h: Seq<char>) -> bool {
    exists|o: int| 0 <= o < old.len() && (#[trigger] old[o]).body_hash@ == h
}

proof fn lemma_last_with_body(old: Seq<SymbolRow>, h: Seq<char>, k: int)
    requires
        0 <= k <= old.len(),
    ensures
        last_with_body(old, h, k) is Some <==> exists|o: int| 0 <= o < k && (#[trigger] old[o]).body_hash@ == h,
    decreases k,
{
    if k > 0 {
        lemma_last_with_body(old, h, k - 1);
        if last_with_body(old, h, k) is None {
            assert forall|o: int| 0 <= o < k implies (#[trigger] old[o]).body_hash@ != h by {
                if o < k - 1 {
                } else {
                    assert(old[k - 1].body_hash@ != h);
                }
            }
        }
    }
}

/// How many of `ss` have a body hash of the stored file.
pub open spec fn matched_count(old: Seq<SymbolRow>, ss: Seq<Symbol>) -> nat
    decreases ss.len(),
{
    if ss.len() == 0 {
        0
    } else {
        matched_count(old, ss.drop_last()) + if old_has_body(old, ss.last().body_hash@) {
            1nat
        } else {
            0nat
        }
    }
}

proof fn lemma_matching_is_count(old: Seq<SymbolRow>, new: Seq<Symbol>, k: int)
    requires
        0 <= k <= new.len(),
    ensures
        matching_bodies(old, new, k) == matched_count(old, new.subrange(0, k)),
    decreases k,
{
    if k > 0 {
        lemma_matching_is_count(old, new, k - 1);
        let sub = new.subrange(0, k);
        assert(sub.drop_last() =~= new.subrange(0, k - 1));
        assert(sub.last() == new[k - 1]);
        lemma_last_with_body(old, new[k - 1].body_hash@, old.len() as int);
    }
}

proof fn lemma_count_append_unmatched(old: Seq<SymbolRow>, new: Seq<Symbol>, extra: Seq<Symbol>)
    requires
        forall|e: int| 0 <= e < extra.len() ==> !old_has_body(old, (#[trigger] extra[e]).body_hash@),
    ensures
        matched_count(old, new + extra) == matched_count(old, new),
    decreases extra.len(),
{
    if extra.len() == 0 {
        assert(new + extra =~= new);
    } else {
        assert((new + extra).drop_last() =~= new + extra.drop_last());
        assert((new + extra).last() == extra[extra.len() - 1]);
        lemma_count_append_unmatched(old, new, extra.drop_last());
    }
}

/// Law: a created file is a rename exactly when the deleted file had
/// symbols, some body of the new file is one of the deleted file's, and
/// such new symbols make up at least half of the deleted file's symbols.
pub proof fn law_rename_counts_old_symbols(old: Seq<SymbolRow>, new: Seq<Symbol>)
    ensures
        is_rename(old, new) <==> (old.len() > 0 && matched_count(old, new) > 0 && 2 * matched_count(old, new)
            >= old.len()),
{
    lemma_matching_is_count(old, new, new.len() as int);
    assert(new.subrange(0, new.len() as int) =~= new);
}

/// Law: symbols the new file adds whose bodies the deleted file never had
/// do not change whether it is a rename.
pub proof fn law_rename_ignores_added_symbols(old: Seq<SymbolRow>, new: Seq<Symbol>, extra: Seq<Symbol>)
    requires
        forall|e: int| 0 <= e < extra.len() ==> !old_has_body(old, (#[trigger] extra[e]).body_hash@),
    ensures
        is_rename(old, new + extra) == is_rename(old, new),
{
    law_rename_counts_old_symbols(old, new);
    law_rename_counts_old_symbols(old, new + extra);
    lemma_count_append_unmatched(old, new, extra);
}

proof fn lemma_moved_len(old: Seq<SymbolRow>, new: Seq<Symbol>, from: Seq<char>, to: Seq<char>, k: int)
    requires
        0 <= k <= new.len(),
    ensures
        moved_events(old, new, from, to, k).len() == matching_bodies(old, new, k),
    decreases k,
{
    if k > 0 {
        lemma_moved_len(old, new, from, to, k - 1);
    }
}

/// Law: a rename moves one symbol for each new symbol whose body the
/// deleted file had.
pub proof fn law_rename_moves_matched(old: Seq<SymbolRow>, new: Seq<Symbol>, from: Seq<char>, to: Seq<char>)
    ensures
        moved_events(old, new, from, to, new.len() as int).len() == matched_count(old, new),
{
    lemma_moved_len(old, new, from, to, new.len() as int);
    lemma_matching_is_count(old, new, new.len() as int);
    assert(new.subrange(0, new.len() as int) =~= new);
}

fn last_body_index(old: &Vec<SymbolRow>, h: &str) -> (r: Option<usize>)
    ensures
        match r {
            Some(o) => o < old.len() && last_with_body(old@, h@, old.len() as int) == Some(o as int),
            None => last_with_body(old@, h@, old.len() as int) is None,
        },
{
    let mut k: usize = old.len();
    while k > 0
        invariant
            k <= old.len(),
            last_with_body(old@, h@, old.len() as int) == last_with_body(old@, h@, k as int),
        decreases k,
    {
        if same_text(old[k - 1].body_hash.as_str(), h) {
            return Some(k - 1);
        }
        k = k - 1;
    }
    None
}

/// Whether the file `to` (new symbols `new`) is a renamed `from` (stored
/// symbols `old`), and then the `moved` events of its symbols.
pub fn detect_rename(old: &Vec<SymbolRow>, new: &Vec<Symbol>, from: &str, to: &str) -> (r: Option<Vec<EvolutionEvent>>)
    ensures
        r is Some <==> is_rename(old@, new@),
        r matches Some(es) ==> event_views(es@) == moved_events(old@, new@, from@, to@, new@.len() as int),
{
    proof {
        reveal_strlit("moved from ");
        reveal_strlit(" to ");
    }
    let mut m: usize = 0;
    let mut k: usize = 0;
    while k < new.len()
        invariant
            k <= new.len(),
            m == matching_bodies(old@, new@, k as int),
            m <= k,
        decreases new.len() - k,
    {
        if last_body_index(old, new[k].body_hash.as_str()).is_some() {
            m = m + 1;
        }
        k = k + 1;
    }
    if !(old.len() > 0 && m > 0 && (m >= old.len() || m >= old.len() - m)) {
        return None;
    }
    let mut out: Vec<EvolutionEvent> = Vec::new();
    let mut k: usize = 0;
    while k < new.len()
        invariant
            k <= new.len(),
            event_views(out@) == moved_events(old@, new@, from@, to@, k as int),
        decreases new.len() - k,
    {
        let ghost before = event_views(out@);
        let s = &new[k];
        match last_body_index(old, s.body_hash.as_str()) {
            Some(o) => {
                let mut d = String::new();
                push_str(&mut d, "moved from ");
                push_str(&mut d, from);
                push_str(&mut d, " to ");
                push_str(&mut d, to);
                let e = EvolutionEvent {
                    symbol_id: s.id.clone(),
                    change: ChangeKind::Moved,
                    old_hash: Some(old[o].full_hash.clone()),
                    new_hash: Some(s.full_hash.clone()),
                    old_file: Some(from.to_owned()),
                    new_file: Some(to.to_owned()),
                    description: d,
                };
                out.push(e);
                assert(event_views(out@) =~= before.push(event_view(e)));
            },
            None => {
                assert(event_views(out@) =~= before);
            },
        }
        k = k + 1;
    }
    Some(out)
}

} // verus!

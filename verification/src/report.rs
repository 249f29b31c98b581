//! The codebase report of the MCP tools: counts, languages, the most-called
//! symbols and the symbols with stale annotations. The store's answers are
//! gathered by the caller; the layout is decided here.
use vstd::prelude::*;
use crate::text::{decimal, decimal_string, push_str};

verus! {

/// A symbol as a report lists it, with the number shown beside it (its
/// callers, or its stale annotations).
#[derive(Debug)]
pub struct ReportEntry {
    pub count: usize,
    pub kind: String,
    pub name: String,
    pub file: String,
}

/// One listed symbol: `count word — kind name (file)`.
pub open spec fn entry_line(e: ReportEntry, word: Seq<char>) -> Seq<char> {
    "  "@ + decimal(e.count as nat) + " "@ + word + " — "@ + e.kind@ + " "@ + e.name@ + " ("@ + e.file@
        + ")\n"@
}

/// The lines of the first `k` entries.
pub open spec fn entry_lines(es: Seq<ReportEntry>, word: Seq<char>, k: int) -> Seq<char>
    decreases k,
{
    if k <= 0 {
        seq![]
    } else {
        entry_lines(es, word, k - 1) + entry_line(es[k - 1], word)
    }
}

/// The lines of the first `k` languages with their symbol counts.
pub open spec fn language_lines(ls: Seq<(String, usize)>, k: int) -> Seq<char>
    decreases k,
{
    if k <= 0 {
        seq![]
    } else {
        language_lines(ls, k - 1) + "  "@ + ls[k - 1].0@ + " — "@ + decimal(ls[k - 1].1 as nat) + " symbols\n"@
    }
}

/// The report: a header with the counts; the languages, when the store could
/// list them; the most-called symbols, when there are any; and the symbols
/// with stale annotations, when there are any.
pub open spec fn report_of(
    symbols: nat,
    edges: nat,
    files: nat,
    languages: Option<Seq<(String, usize)>>,
    most_called: Seq<ReportEntry>,
    stale: Seq<ReportEntry>,
) -> Seq<char> {
    "=== Codebase Report ===\nSymbols: "@ + decimal(symbols) + " | Edges: "@ + decimal(edges) + " | Files: "@
        + decimal(files) + "\n\n"@ + match languages {
        Some(ls) => "Languages:\n"@ + language_lines(ls, ls.len() as int) + "\n"@,
        None => seq![],
    } + if most_called.len() > 0 {
        "Most-called symbols (god nodes):\n"@ + entry_lines(most_called, "callers"@, most_called.len() as int)
            + "\n"@
    } else {
        seq![]
    } + if stale.len() > 0 {
        "Symbols with stale annotations:\n"@ + entry_lines(stale, "stale"@, stale.len() as int)
    } else {
        seq![]
    }
}

fn push_entry_line(out: &mut String, e: &ReportEntry, word: &str)
    ensures
        final(out)@ == old(out)@ + entry_line(*e, word@),
{
    proof {
        reveal_strlit("  ");
        reveal_strlit(" ");
        reveal_strlit(" — ");
        reveal_strlit(" (");
        reveal_strlit(")\n");
    }
    push_str(out, "  ");
    push_str(out, decimal_string(e.count).as_str());
    push_str(out, " ");
    push_str(out, word);
    push_str(out, " — ");
    push_str(out, e.kind.as_str());
    push_str(out, " ");
    push_str(out, e.name.as_str());
    push_str(out, " (");
    push_str(out, e.file.as_str());
    push_str(out, ")\n");
}

fn push_entries(out: &mut String, es: &Vec<ReportEntry>, word: &str)
    ensures
        final(out)@ == old(out)@ + entry_lines(es@, word@, es.len() as int),
{
    let ghost head = out@;
    assert(head + entry_lines(es@, word@, 0) =~= head);
    let mut i: usize = 0;
    while i < es.len()
        invariant
            i <= es.len(),
            out@ == head + entry_lines(es@, word@, i as int),
        decreases es.len() - i,
    {
        push_entry_line(out, &es[i], word);
        assert(out@ =~= head + entry_lines(es@, word@, i + 1));
        i = i + 1;
    }
}

fn push_languages(out: &mut String, ls: &Vec<(String, usize)>)
    ensures
        final(out)@ == old(out)@ + language_lines(ls@, ls.len() as int),
{
    let ghost head = out@;
    assert(head + language_lines(ls@, 0) =~= head);
    proof {
        reveal_strlit("  ");
        reveal_strlit(" — ");
        reveal_strlit(" symbols\n");
    }
    let mut i: usize = 0;
    while i < ls.len()
        invariant
            i <= ls.len(),
            out@ == head + language_lines(ls@, i as int),
        decreases ls.len() - i,
    {
        push_str(out, "  ");
        push_str(out, ls[i].0.as_str());
        push_str(out, " — ");
        push_str(out, decimal_string(ls[i].1).as_str());
        push_str(out, " symbols\n");
        assert(out@ =~= head + language_lines(ls@, i + 1));
        i = i + 1;
    }
}

/// The codebase report, from the store's counts, its language breakdown
/// (`None` when it could not be read), the most-called symbols with their
/// caller counts, and the symbols with their numbers of stale annotations.
pub fn format_codebase_report(
    symbols: usize,
    edges: usize,
    files: usize,
    languages: &Option<Vec<(String, usize)>>,
    most_called: &Vec<ReportEntry>,
    stale: &Vec<ReportEntry>,
) -> (r: String)
    ensures
        r@ == report_of(
            symbols as nat,
            edges as nat,
            files as nat,
            match languages {
                Some(ls) => Some(ls@),
                None => None,
            },
            most_called@,
            stale@,
        ),
{
    proof {
        reveal_strlit("=== Codebase Report ===\nSymbols: ");
        reveal_strlit(" | Edges: ");
        reveal_strlit(" | Files: ");
        reveal_strlit("\n\n");
        reveal_strlit("Languages:\n");
        reveal_strlit("\n");
        reveal_strlit("Most-called symbols (god nodes):\n");
        reveal_strlit("Symbols with stale annotations:\n");
        reveal_strlit("callers");
        reveal_strlit("stale");
    }
    let mut out = String::new();
    push_str(&mut out, "=== Codebase Report ===\nSymbols: ");
    push_str(&mut out, decimal_string(symbols).as_str());
    push_str(&mut out, " | Edges: ");
    push_str(&mut out, decimal_string(edges).as_str());
    push_str(&mut out, " | Files: ");
    push_str(&mut out, decimal_string(files).as_str());
    push_str(&mut out, "\n\n");
    let ghost header = out@;
    match languages {
        Some(ls) => {
            push_str(&mut out, "Languages:\n");
            push_languages(&mut out, ls);
            push_str(&mut out, "\n");
        },
        None => {},
    }
    let ghost after_languages = out@;
    if most_called.len() > 0 {
        push_str(&mut out, "Most-called symbols (god nodes):\n");
        push_entries(&mut out, most_called, "callers");
        push_str(&mut out, "\n");
    }
    let ghost after_top = out@;
    if stale.len() > 0 {
        push_str(&mut out, "Symbols with stale annotations:\n");
        push_entries(&mut out, stale, "stale");
    }
    let ghost langs = match languages {
        Some(ls) => Some(ls@),
        None => None,
    };
    assert(out@ =~= report_of(symbols as nat, edges as nat, files as nat, langs, most_called@, stale@));
    out
}

// ── Exploration map ──────────────────────────────────────────────────────

/// How many explored symbols the exploration map names.
pub const EXPLORED_SHOWN: usize = 15;

/// An explored symbol as the map shows it; `score` is its attention score
/// as already rendered (a whole number).
#[derive(Debug)]
pub struct ExploredLine {
    pub score: String,
    pub kind: String,
    pub name: String,
    pub file: String,
}

/// A blind spot as the map shows it, with its number of callers.
#[derive(Debug)]
pub struct BlindLine {
    pub kind: String,
    pub name: String,
    pub file: String,
    pub callers: usize,
}

pub open spec fn explored_line(e: ExploredLine) -> Seq<char> {
    "  ["@ + e.score@ + "] "@ + e.kind@ + " "@ + e.name@ + " ("@ + e.file@ + ")\n"@
}

pub open spec fn blind_line(b: BlindLine) -> Seq<char> {
    "  "@ + b.kind@ + " "@ + b.name@ + " ("@ + b.file@ + ") — "@ + decimal(b.callers as nat) + " callers\n"@
}

/// The lines of the readable ones among the first `k` explored symbols.
pub open spec fn explored_lines(es: Seq<Option<ExploredLine>>, k: int) -> Seq<char>
    decreases k,
{
    if k <= 0 {
        seq![]
    } else {
        explored_lines(es, k - 1) + match es[k - 1] {
            Some(e) => explored_line(e),
            None => seq![],
        }
    }
}

/// The lines of the readable ones among the first `k` blind spots.
pub open spec fn blind_lines(bs: Seq<Option<BlindLine>>, k: int) -> Seq<char>
    decreases k,
{
    if k <= 0 {
        seq![]
    } else {
        blind_lines(bs, k - 1) + match bs[k - 1] {
            Some(b) => blind_line(b),
            None => seq![],
        }
    }
}

/// The exploration map: the explored symbols (the first `EXPLORED_SHOWN`
/// of them, those whose rows could be read), or a note that there are none;
/// then the blind spots whose rows could be read, when there are any.
pub open spec fn exploration_map_of(explored: Seq<Option<ExploredLine>>, blind: Seq<Option<BlindLine>>) -> Seq<char> {
    (if explored.len() == 0 {
        "No symbols explored yet.\n"@
    } else {
        "Explored ("@ + decimal(explored.len()) + " symbols):\n"@ + explored_lines(
            explored,
            if explored.len() < EXPLORED_SHOWN { explored.len() as int } else { EXPLORED_SHOWN as int },
        )
    }) + if blind.len() > 0 {
        "\nBlind spots ("@ + decimal(blind.len()) + " high-caller symbols never explored):\n"@ + blind_lines(
            blind,
            blind.len() as int,
        )
    } else {
        seq![]
    }
}

fn push_explored_line(out: &mut String, e: &ExploredLine)
    ensures
        final(out)@ == old(out)@ + explored_line(*e),
{
    proof {
        reveal_strlit("  [");
        reveal_strlit("] ");
        reveal_strlit(" ");
        reveal_strlit(" (");
        reveal_strlit(")\n");
    }
    push_str(out, "  [");
    push_str(out, e.score.as_str());
    push_str(out, "] ");
    push_str(out, e.kind.as_str());
    push_str(out, " ");
    push_str(out, e.name.as_str());
    push_str(out, " (");
    push_str(out, e.file.as_str());
    push_str(out, ")\n");
}

fn push_blind_line(out: &mut String, b: &BlindLine)
    ensures
        final(out)@ == old(out)@ + blind_line(*b),
{
    proof {
        reveal_strlit("  ");
        reveal_strlit(" ");
        reveal_strlit(" (");
        reveal_strlit(") — ");
        reveal_strlit(" callers\n");
    }
    push_str(out, "  ");
    push_str(out, b.kind.as_str());
    push_str(out, " ");
    push_str(out, b.name.as_str());
    push_str(out, " (");
    push_str(out, b.file.as_str());
    push_str(out, ") — ");
    push_str(out, decimal_string(b.callers).as_str());
    push_str(out, " callers\n");
}

/// The exploration map, given for each explored symbol (most attended
/// first) and each blind spot its line, or `None` where its row could not
/// be read. Only the first `EXPLORED_SHOWN` explored symbols are shown, so
/// the caller need not read the rows of the others.
pub fn format_exploration_map(explored: &Vec<Option<ExploredLine>>, blind: &Vec<Option<BlindLine>>) -> (r: String)
    ensures
        r@ == exploration_map_of(explored@, blind@),
{
    proof {
        reveal_strlit("No symbols explored yet.\n");
        reveal_strlit("Explored (");
        reveal_strlit(" symbols):\n");
        reveal_strlit("\nBlind spots (");
        reveal_strlit(" high-caller symbols never explored):\n");
    }
    let mut out = String::new();
    if explored.len() == 0 {
        push_str(&mut out, "No symbols explored yet.\n");
    } else {
        push_str(&mut out, "Explored (");
        push_str(&mut out, decimal_string(explored.len()).as_str());
        push_str(&mut out, " symbols):\n");
        let shown = if explored.len() < EXPLORED_SHOWN { explored.len() } else { EXPLORED_SHOWN };
        let ghost head = out@;
        assert(head + explored_lines(explored@, 0) =~= head);
        let mut i: usize = 0;
        while i < shown
            invariant
                i <= shown <= explored.len(),
                out@ == head + explored_lines(explored@, i as int),
            decreases shown - i,
        {
            match &explored[i] {
                Some(e) => push_explored_line(&mut out, e),
                None => {},
            }
            assert(out@ =~= head + explored_lines(explored@, i + 1));
            i = i + 1;
        }
    }
    let ghost mid = out@;
    if blind.len() > 0 {
        push_str(&mut out, "\nBlind spots (");
        push_str(&mut out, decimal_string(blind.len()).as_str());
        push_str(&mut out, " high-caller symbols never explored):\n");
        let ghost head = out@;
        assert(head + blind_lines(blind@, 0) =~= head);
        let mut i: usize = 0;
        while i < blind.len()
            invariant
                i <= blind.len(),
                out@ == head + blind_lines(blind@, i as int),
            decreases blind.len() - i,
        {
            match &blind[i] {
                Some(b) => push_blind_line(&mut out, b),
                None => {},
            }
            assert(out@ =~= head + blind_lines(blind@, i + 1));
            i = i + 1;
        }
    }
    assert(out@ =~= exploration_map_of(explored@, blind@));
    out
}

// ── Search results ───────────────────────────────────────────────────────

/// A search result as listed; `score` is already rendered.
#[derive(Debug)]
pub struct SearchHit {
    pub score: String,
    pub kind: String,
    pub name: String,
    pub file: String,
    pub line: usize,
    pub signature: String,
}

pub open spec fn hit_line(h: SearchHit) -> Seq<char> {
    "  ["@ + h.score@ + "] "@ + h.kind@ + " "@ + h.name@ + " ("@ + h.file@ + ":"@ + decimal(h.line as nat) + ") — "@
        + h.signature@ + "\n"@
}

/// The lines of the readable ones among the first `k` results.
pub open spec fn hit_lines(hs: Seq<Option<SearchHit>>, k: int) -> Seq<char>
    decreases k,
{
    if k <= 0 {
        seq![]
    } else {
        hit_lines(hs, k - 1) + match hs[k - 1] {
            Some(h) => hit_line(h),
            None => seq![],
        }
    }
}

/// The search answer: a note when nothing was found; otherwise a header
/// naming the kind of search (hybrid, or full-text alone) and a line per
/// result whose symbol could be read.
pub open spec fn search_text_of(query: Seq<char>, hybrid: bool, hits: Seq<Option<SearchHit>>) -> Seq<char> {
    if hits.len() == 0 {
        "No results found for '"@ + query + "'"@
    } else {
        (if hybrid {
            "Hybrid search results for '"@ + query + "' (RRF: vector + BM25 + graph):\n"@
        } else {
            "Search results for '"@ + query + "' (BM25):\n"@
        }) + hit_lines(hits, hits.len() as int)
    }
}

fn push_hit_line(out: &mut String, h: &SearchHit)
    ensures
        final(out)@ == old(out)@ + hit_line(*h),
{
    proof {
        reveal_strlit("  [");
        reveal_strlit("] ");
        reveal_strlit(" ");
        reveal_strlit(" (");
        reveal_strlit(":");
        reveal_strlit(") — ");
        reveal_strlit("\n");
    }
    push_str(out, "  [");
    push_str(out, h.score.as_str());
    push_str(out, "] ");
    push_str(out, h.kind.as_str());
    push_str(out, " ");
    push_str(out, h.name.as_str());
    push_str(out, " (");
    push_str(out, h.file.as_str());
    push_str(out, ":");
    push_str(out, decimal_string(h.line).as_str());
    push_str(out, ") — ");
    push_str(out, h.signature.as_str());
    push_str(out, "\n");
}

/// The search answer for `query`, given for each result, in rank order,
/// its line, or `None` where its symbol could not be read.
pub fn format_search_results(query: &str, hybrid: bool, hits: &Vec<Option<SearchHit>>) -> (r: String)
    ensures
        r@ == search_text_of(query@, hybrid, hits@),
{
    proof {
        reveal_strlit("No results found for '");
        reveal_strlit("'");
        reveal_strlit("Hybrid search results for '");
        reveal_strlit("' (RRF: vector + BM25 + graph):\n");
        reveal_strlit("Search results for '");
        reveal_strlit("' (BM25):\n");
    }
    let mut out = String::new();
    if hits.len() == 0 {
        push_str(&mut out, "No results found for '");
        push_str(&mut out, query);
        push_str(&mut out, "'");
        return out;
    }
    if hybrid {
        push_str(&mut out, "Hybrid search results for '");
        push_str(&mut out, query);
        push_str(&mut out, "' (RRF: vector + BM25 + graph):\n");
    } else {
        push_str(&mut out, "Search results for '");
        push_str(&mut out, query);
        push_str(&mut out, "' (BM25):\n");
    }
    let ghost head = out@;
    assert(head + hit_lines(hits@, 0) =~= head);
    let mut i: usize = 0;
    while i < hits.len()
        invariant
            i <= hits.len(),
            out@ == head + hit_lines(hits@, i as int),
        decreases hits.len() - i,
    {
        match &hits[i] {
            Some(h) => push_hit_line(&mut out, h),
            None => {},
        }
        assert(out@ =~= head + hit_lines(hits@, i + 1));
        i = i + 1;
    }
    out
}

} // verus!

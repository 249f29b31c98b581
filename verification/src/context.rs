//! The context texts the MCP tools give for a symbol, in four tiers of
//! detail. The store's answers and the rendering of floating-point numbers
//! are gathered by the caller; the layout is decided here.
use vstd::prelude::*;
use crate::graph::SymbolRow;
use crate::parser::languages::same_text;
use crate::text::{
    decimal, decimal_i64, decimal_string, from_chars, join, join_chars, pad_left, push_str, signed_decimal,
    slice_chars, to_chars, views,
};

verus! {

/// An annotation as a context shows it; `percent` is its confidence as
/// already rendered (a whole number of percent).
#[derive(Debug)]
pub struct AnnotationLine {
    pub id: i64,
    pub annotation_type: String,
    pub content: String,
    pub percent: String,
    pub status: String,
}

/// A symbol reached in the call graph, with its depth.
#[derive(Debug)]
pub struct GraphEntry {
    pub depth: usize,
    pub kind: String,
    pub name: String,
}

/// How many of the annotations are stale.
pub open spec fn stale_count(anns: Seq<AnnotationLine>) -> nat {
    anns.filter(|a: AnnotationLine| a.status@ == "stale"@).len()
}

/// The brief tier: one line with kind, name, place and risk, and the
/// number of stale annotations when there are any.
pub open spec fn brief_of(sym: SymbolRow, risk: Seq<char>, anns: Seq<AnnotationLine>) -> Seq<char> {
    let stale = stale_count(anns);
    sym.kind@ + " "@ + sym.name@ + " ("@ + sym.file@ + ":"@ + decimal(sym.line_start as nat) + ") risk="@ + risk
        + if stale > 0 {
        " ["@ + decimal(stale) + " stale annotations]"@
    } else {
        seq![]
    } + "\n"@
}

/// One annotation line of the standard tier.
pub open spec fn annotation_text(a: AnnotationLine) -> Seq<char> {
    "  annotation #"@ + signed_decimal(a.id as int) + " ["@ + a.annotation_type@ + "] ("@ + a.percent@
        + "%, "@ + a.status@ + ") "@ + a.content@ + "\n"@
}

/// The annotation lines of the first `k` annotations.
pub open spec fn annotation_texts(anns: Seq<AnnotationLine>, k: int) -> Seq<char>
    decreases k,
{
    if k <= 0 {
        seq![]
    } else {
        annotation_texts(anns, k - 1) + annotation_text(anns[k - 1])
    }
}

/// How many callers the standard tier names.
pub const CALLERS_SHOWN: usize = 5;

/// The names among the first `k` callers whose rows could be read.
pub open spec fn readable_names(callers: Seq<Option<String>>, k: int) -> Seq<Seq<char>>
    decreases k,
{
    if k <= 0 {
        seq![]
    } else {
        readable_names(callers, k - 1) + match callers[k - 1] {
            Some(n) => seq![n@],
            None => seq![],
        }
    }
}

/// The caller names the standard tier shows: those readable among the first
/// `CALLERS_SHOWN` callers.
pub open spec fn shown_callers(callers: Seq<Option<String>>) -> Seq<Seq<char>> {
    readable_names(callers, if callers.len() < CALLERS_SHOWN { callers.len() as int } else { CALLERS_SHOWN as int })
}

/// The standard tier: place, scope, signature, docstring, the first
/// callers' names (when the symbol has callers) and all annotations.
pub open spec fn standard_of(
    sym: SymbolRow,
    scope: Seq<Seq<char>>,
    callers: Seq<Option<String>>,
    anns: Seq<AnnotationLine>,
) -> Seq<char> {
    sym.kind@ + " "@ + sym.name@ + " ("@ + sym.file@ + ":"@ + decimal(sym.line_start as nat) + "–"@
        + decimal(sym.line_end as nat) + ")\n  scope: "@ + join(scope, " > "@) + "\n  signature: "@
        + sym.signature@ + "\n"@ + match sym.docstring {
        Some(d) => "  docstring: "@ + d@ + "\n"@,
        None => seq![],
    } + if callers.len() > 0 {
        "  callers: "@ + join(shown_callers(callers), ", "@) + "\n"@
    } else {
        seq![]
    } + annotation_texts(anns, anns.len() as int)
}

/// One line of a caller or dependency graph.
pub open spec fn graph_line(e: GraphEntry) -> Seq<char> {
    "    [depth "@ + decimal(e.depth as nat) + "] "@ + e.kind@ + " "@ + e.name@ + "\n"@
}

pub open spec fn graph_lines(es: Seq<GraphEntry>, k: int) -> Seq<char>
    decreases k,
{
    if k <= 0 {
        seq![]
    } else {
        graph_lines(es, k - 1) + graph_line(es[k - 1])
    }
}

/// A titled graph section, present when the graph had entries.
pub open spec fn graph_section(title: Seq<char>, present: bool, es: Seq<GraphEntry>) -> Seq<char> {
    if present {
        title + graph_lines(es, es.len() as int)
    } else {
        seq![]
    }
}

/// What the full tier adds to the standard one.
pub open spec fn full_extra_of(has_callers: bool, callers: Seq<GraphEntry>, has_deps: bool, deps: Seq<GraphEntry>) -> Seq<char> {
    graph_section("  full caller graph:\n"@, has_callers, callers) + graph_section(
        "  dependencies:\n"@,
        has_deps,
        deps,
    )
}

/// One numbered source line: the number right-aligned in four columns.
pub open spec fn source_line(num: nat, line: Seq<char>) -> Seq<char> {
    "  "@ + pad_left(decimal(num), 4) + " | "@ + line + "\n"@
}

/// The numbered source lines `from..to` (zero-based).
pub open spec fn source_lines(lines: Seq<Seq<char>>, from: int, to: int) -> Seq<char>
    decreases to - from,
{
    if to <= from {
        seq![]
    } else {
        source_lines(lines, from, to - 1) + source_line(to as nat, lines[to - 1])
    }
}

/// An annotation as the deep tier lists it.
pub open spec fn marked_annotation(a: AnnotationLine) -> Seq<char> {
    "  #"@ + signed_decimal(a.id as int) + " ["@ + a.annotation_type@ + "] ("@ + a.percent@ + "%, "@
        + if a.status@ == "stale"@ {
        "STALE"@
    } else {
        "active"@
    } + ") "@ + a.content@ + "\n"@
}

/// The annotations that are active or stale.
pub open spec fn live_annotations(anns: Seq<AnnotationLine>) -> Seq<AnnotationLine> {
    anns.filter(|a: AnnotationLine| a.status@ == "active"@ || a.status@ == "stale"@)
}

pub open spec fn marked_annotations(anns: Seq<AnnotationLine>, k: int) -> Seq<char>
    decreases k,
{
    if k <= 0 {
        seq![]
    } else {
        marked_annotations(anns, k - 1) + marked_annotation(anns[k - 1])
    }
}

/// What the deep tier adds to the full one: the symbol's source lines and
/// its live annotations, or a note that the file could not be read.
pub open spec fn deep_extra_of(sym: SymbolRow, source: Option<Seq<Seq<char>>>, anns: Seq<AnnotationLine>) -> Seq<char> {
    match source {
        None => "\n  (source file not found: "@ + sym.file@ + ")\n"@,
        Some(lines) => {
            let start = if sym.line_start >= 1 { sym.line_start - 1 } else { 0 };
            let end = if sym.line_end <= lines.len() { sym.line_end as int } else { lines.len() as int };
            if start < lines.len() {
                let live = live_annotations(anns);
                "\n  ── source code ──\n"@ + source_lines(lines, start, end) + if live.len() > 0 {
                    "  ── annotations ──\n"@ + marked_annotations(live, live.len() as int)
                } else {
                    seq![]
                }
            } else {
                seq![]
            }
        },
    }
}

/// The symbol's lines can be cut out of its file: when the file was read
/// and the symbol starts within it, it does not start after the line
/// following its end.
pub open spec fn deep_lines_in_order(sym: SymbolRow, source_len: Option<usize>) -> bool {
    source_len matches Some(n) && sym.line_start >= 1 && sym.line_start - 1 < n ==> sym.line_start
        <= sym.line_end + 1
}

// ── Executable ────────────────────────────────────────────────────────────

fn count_stale(anns: &Vec<AnnotationLine>) -> (n: usize)
    ensures
        n == stale_count(anns@),
{
    let ghost pred = |a: AnnotationLine| a.status@ == "stale"@;
    let mut n: usize = 0;
    let mut i: usize = 0;
    while i < anns.len()
        invariant
            i <= anns.len(),
            pred == (|a: AnnotationLine| a.status@ == "stale"@),
            n == anns@.subrange(0, i as int).filter(pred).len(),
            n <= i,
        decreases anns.len() - i,
    {
        proof {
            reveal(Seq::filter);
            let sub = anns@.subrange(0, i + 1);
            assert(sub.drop_last() =~= anns@.subrange(0, i as int));
            assert(sub.last() == anns@[i as int]);
        }
        if same_text(anns[i].status.as_str(), "stale") {
            n = n + 1;
        }
        i = i + 1;
    }
    assert(anns@.subrange(0, anns.len() as int) =~= anns@);
    n
}

fn push_annotation_text(out: &mut String, a: &AnnotationLine)
    ensures
        final(out)@ == old(out)@ + annotation_text(*a),
{
    proof {
        reveal_strlit("  annotation #");
        reveal_strlit(" [");
        reveal_strlit("] (");
        reveal_strlit("%, ");
        reveal_strlit(") ");
        reveal_strlit("\n");
    }
    push_str(out, "  annotation #");
    push_str(out, decimal_i64(a.id).as_str());
    push_str(out, " [");
    push_str(out, a.annotation_type.as_str());
    push_str(out, "] (");
    push_str(out, a.percent.as_str());
    push_str(out, "%, ");
    push_str(out, a.status.as_str());
    push_str(out, ") ");
    push_str(out, a.content.as_str());
    push_str(out, "\n");
}

fn push_graph_line(out: &mut String, e: &GraphEntry)
    ensures
        final(out)@ == old(out)@ + graph_line(*e),
{
    proof {
        reveal_strlit("    [depth ");
        reveal_strlit("] ");
        reveal_strlit(" ");
        reveal_strlit("\n");
    }
    push_str(out, "    [depth ");
    push_str(out, decimal_string(e.depth).as_str());
    push_str(out, "] ");
    push_str(out, e.kind.as_str());
    push_str(out, " ");
    push_str(out, e.name.as_str());
    push_str(out, "\n");
}

/// The brief context of a symbol, given its rendered risk score and its
/// annotations.
pub fn format_brief(sym: &SymbolRow, risk: &str, anns: &Vec<AnnotationLine>) -> (r: String)
    ensures
        r@ == brief_of(*sym, risk@, anns@),
{
    let stale = count_stale(anns);
    let mut out = String::new();
    push_str(&mut out, sym.kind.as_str());
    push_str(&mut out, " ");
    push_str(&mut out, sym.name.as_str());
    push_str(&mut out, " (");
    push_str(&mut out, sym.file.as_str());
    push_str(&mut out, ":");
    push_str(&mut out, decimal_string(sym.line_start).as_str());
    push_str(&mut out, ") risk=");
    push_str(&mut out, risk);
    let ghost mid = out@;
    if stale > 0 {
        push_str(&mut out, " [");
        push_str(&mut out, decimal_string(stale).as_str());
        push_str(&mut out, " stale annotations]");
    }
    push_str(&mut out, "\n");
    proof {
        reveal_strlit(" ");
        reveal_strlit(" (");
        reveal_strlit(":");
        reveal_strlit(") risk=");
        reveal_strlit(" [");
        reveal_strlit(" stale annotations]");
        reveal_strlit("\n");
    }
    out
}

fn join_names(v: &Vec<String>, sep: &str) -> (r: String)
    ensures
        r@ == join(v@.map_values(|s: String| s@), sep@),
{
    let mut parts: Vec<Vec<char>> = Vec::new();
    let mut i: usize = 0;
    while i < v.len()
        invariant
            i <= v.len(),
            views(parts@) == v@.subrange(0, i as int).map_values(|s: String| s@),
        decreases v.len() - i,
    {
        let ghost before = views(parts@);
        let c = to_chars(v[i].as_str());
        parts.push(c);
        assert(views(parts@) =~= before.push(c@));
        assert(v@.subrange(0, i + 1).map_values(|s: String| s@) =~= v@.subrange(0, i as int).map_values(
            |s: String| s@,
        ).push(v@[i as int]@));
        i = i + 1;
    }
    assert(v@.subrange(0, v.len() as int) =~= v@);
    let s = to_chars(sep);
    crate::text::from_chars(join_chars(&parts, s.as_slice()).as_slice())
}

/// The names shown among the callers: the readable ones among the first
/// `CALLERS_SHOWN`.
fn shown_caller_names(callers: &Vec<Option<String>>) -> (r: Vec<String>)
    ensures
        r@.map_values(|s: String| s@) == shown_callers(callers@),
{
    let n = if callers.len() < CALLERS_SHOWN { callers.len() } else { CALLERS_SHOWN };
    let mut r: Vec<String> = Vec::new();
    let mut i: usize = 0;
    while i < n
        invariant
            i <= n,
            n <= callers.len(),
            r@.map_values(|s: String| s@) == readable_names(callers@, i as int),
        decreases n - i,
    {
        let ghost before = r@.map_values(|s: String| s@);
        match &callers[i] {
            Some(name) => {
                r.push(name.clone());
                assert(r@.map_values(|s: String| s@) =~= before + seq![name@]);
            },
            None => {
                assert(before + seq![] =~= before);
            },
        }
        i = i + 1;
    }
    r
}

/// The standard context of a symbol, given its scope chain, its callers
/// (each with its name when its row could be read), and its annotations.
pub fn format_standard(
    sym: &SymbolRow,
    scope: &Vec<String>,
    callers: &Vec<Option<String>>,
    anns: &Vec<AnnotationLine>,
) -> (r: String)
    ensures
        r@ == standard_of(*sym, scope@.map_values(|s: String| s@), callers@, anns@),
{
    proof {
        reveal_strlit(" ");
        reveal_strlit(" (");
        reveal_strlit(":");
        reveal_strlit("–");
        reveal_strlit(")\n  scope: ");
        reveal_strlit("\n  signature: ");
        reveal_strlit("\n");
        reveal_strlit("  docstring: ");
        reveal_strlit("  callers: ");
    }
    let mut out = String::new();
    push_str(&mut out, sym.kind.as_str());
    push_str(&mut out, " ");
    push_str(&mut out, sym.name.as_str());
    push_str(&mut out, " (");
    push_str(&mut out, sym.file.as_str());
    push_str(&mut out, ":");
    push_str(&mut out, decimal_string(sym.line_start).as_str());
    push_str(&mut out, "–");
    push_str(&mut out, decimal_string(sym.line_end).as_str());
    push_str(&mut out, ")\n  scope: ");
    push_str(&mut out, join_names(scope, " > ").as_str());
    push_str(&mut out, "\n  signature: ");
    push_str(&mut out, sym.signature.as_str());
    push_str(&mut out, "\n");
    match &sym.docstring {
        Some(d) => {
            push_str(&mut out, "  docstring: ");
            push_str(&mut out, d.as_str());
            push_str(&mut out, "\n");
        },
        None => {},
    }
    if callers.len() > 0 {
        push_str(&mut out, "  callers: ");
        push_str(&mut out, join_names(&shown_caller_names(callers), ", ").as_str());
        push_str(&mut out, "\n");
    }
    let ghost head = out@;
    let mut i: usize = 0;
    while i < anns.len()
        invariant
            i <= anns.len(),
            out@ == head + annotation_texts(anns@, i as int),
        decreases anns.len() - i,
    {
        push_annotation_text(&mut out, &anns[i]);
        assert(out@ =~= head + annotation_texts(anns@, i + 1));
        i = i + 1;
    }
    out
}

fn push_graph(out: &mut String, title: &str, present: bool, es: &Vec<GraphEntry>)
    ensures
        final(out)@ == old(out)@ + graph_section(title@, present, es@),
{
    if !present {
        assert(old(out)@ + seq![] =~= old(out)@);
        return;
    }
    push_str(out, title);
    let ghost head = out@;
    let mut i: usize = 0;
    while i < es.len()
        invariant
            i <= es.len(),
            out@ == head + graph_lines(es@, i as int),
        decreases es.len() - i,
    {
        push_graph_line(out, &es[i]);
        assert(out@ =~= head + graph_lines(es@, i + 1));
        i = i + 1;
    }
}

/// What the full context adds to the standard one: the caller graph and the
/// dependencies to three levels, each when the symbol has any.
pub fn format_full_extra(
    has_callers: bool,
    callers: &Vec<GraphEntry>,
    has_deps: bool,
    deps: &Vec<GraphEntry>,
) -> (r: String)
    ensures
        r@ == full_extra_of(has_callers, callers@, has_deps, deps@),
{
    let mut out = String::new();
    push_graph(&mut out, "  full caller graph:\n", has_callers, callers);
    push_graph(&mut out, "  dependencies:\n", has_deps, deps);
    assert(Seq::<char>::empty() + graph_section("  full caller graph:\n"@, has_callers, callers@)
        =~= graph_section("  full caller graph:\n"@, has_callers, callers@));
    out
}

/// What the deep context adds to the full one: the symbol's numbered
/// source lines and its live annotations, given the lines of its file
/// (`None` when it could not be read).
pub fn format_deep_extra(sym: &SymbolRow, source: &Option<Vec<String>>, anns: &Vec<AnnotationLine>) -> (r: String)
    requires
        deep_lines_in_order(
            *sym,
            match source {
                Some(ls) => Some(ls.len()),
                None => None,
            },
        ),
    ensures
        r@ == deep_extra_of(
            *sym,
            match source {
                Some(ls) => Some(ls@.map_values(|s: String| s@)),
                None => None,
            },
            anns@,
        ),
{
    proof {
        reveal_strlit("\n  (source file not found: ");
        reveal_strlit(")\n");
        reveal_strlit("\n  ── source code ──\n");
        reveal_strlit("  ");
        reveal_strlit(" | ");
        reveal_strlit("\n");
        reveal_strlit("  ── annotations ──\n");
    }
    let mut out = String::new();
    let lines = match source {
        None => {
            push_str(&mut out, "\n  (source file not found: ");
            push_str(&mut out, sym.file.as_str());
            push_str(&mut out, ")\n");
            return out;
        },
        Some(ls) => ls,
    };
    let ghost lv = lines@.map_values(|s: String| s@);
    let start: usize = if sym.line_start >= 1 { sym.line_start - 1 } else { 0 };
    let end: usize = if sym.line_end <= lines.len() { sym.line_end } else { lines.len() };
    if start >= lines.len() {
        return out;
    }
    push_str(&mut out, "\n  ── source code ──\n");
    let ghost head = out@;
    let mut i: usize = start;
    while i < end
        invariant
            start <= i <= end <= lines.len(),
            lv == lines@.map_values(|s: String| s@),
            out@ == head + source_lines(lv, start as int, i as int),
        decreases end - i,
    {
        let num = decimal_string(i + 1);
        let mut padded = String::new();
        let nc = to_chars(num.as_str());
        let mut k: usize = nc.len();
        while k < 4
            invariant
                nc.len() <= k <= 4 || (nc.len() > 4 && k == nc.len()),
                padded@ == Seq::new((k - nc.len()) as nat, |j: int| ' '),
            decreases 4 - k,
        {
            crate::text::push_char(&mut padded, ' ');
            assert(padded@ =~= Seq::new((k + 1 - nc.len()) as nat, |j: int| ' '));
            k = k + 1;
        }
        push_str(&mut padded, num.as_str());
        assert(padded@ =~= pad_left(decimal((i + 1) as nat), 4));
        push_str(&mut out, "  ");
        push_str(&mut out, padded.as_str());
        push_str(&mut out, " | ");
        push_str(&mut out, lines[i].as_str());
        push_str(&mut out, "\n");
        assert(lv[i as int] == lines@[i as int]@);
        i = i + 1;
    }
    let ghost code = out@;
    let ghost pred = |a: AnnotationLine| a.status@ == "active"@ || a.status@ == "stale"@;
    let mut live: Vec<usize> = Vec::new();
    let mut j: usize = 0;
    while j < anns.len()
        invariant
            j <= anns.len(),
            pred == (|a: AnnotationLine| a.status@ == "active"@ || a.status@ == "stale"@),
            live@.len() == anns@.subrange(0, j as int).filter(pred).len(),
            forall|q: int| 0 <= q < live@.len() ==> #[trigger] live@[q] < anns@.len() && anns@[live@[q] as int] == anns@.subrange(0, j as int).filter(pred)[q],
        decreases anns.len() - j,
    {
        proof {
            reveal(Seq::filter);
            let sub = anns@.subrange(0, j + 1);
            assert(sub.drop_last() =~= anns@.subrange(0, j as int));
            assert(sub.last() == anns@[j as int]);
        }
        if same_text(anns[j].status.as_str(), "active") || same_text(anns[j].status.as_str(), "stale") {
            live.push(j);
        }
        j = j + 1;
    }
    assert(anns@.subrange(0, anns.len() as int) =~= anns@);
    if live.len() == 0 {
        return out;
    }
    push_str(&mut out, "  ── annotations ──\n");
    let ghost head2 = out@;
    let mut q: usize = 0;
    while q < live.len()
        invariant
            q <= live.len(),
            live@.len() == live_annotations(anns@).len(),
            forall|t: int| 0 <= t < live@.len() ==> #[trigger] live@[t] < anns@.len() && anns@[live@[t] as int] == live_annotations(anns@)[t],
            out@ == head2 + marked_annotations(live_annotations(anns@), q as int),
        decreases live.len() - q,
    {
        push_marked_annotation(&mut out, &anns[live[q]]);
        assert(out@ =~= head2 + marked_annotations(live_annotations(anns@), q + 1));
        q = q + 1;
    }
    out
}

// ── Symbol details and walk reports ──────────────────────────────────────

/// How many characters of a symbol's full hash the details show.
pub const DETAILS_HASH_LEN: usize = 12;

/// The details of one symbol as a lookup shows them: place, signature,
/// scope chain, docstring (or `(none)`) and the start of its full hash.
pub open spec fn details_of(sym: SymbolRow, scope: Seq<Seq<char>>) -> Seq<char> {
    sym.kind@ + " "@ + sym.name@ + " ("@ + sym.file@ + ":"@ + decimal(sym.line_start as nat) + "–"@
        + decimal(sym.line_end as nat) + ")\n  signature: "@ + sym.signature@ + "\n  scope: "@ + join(
        scope,
        " > "@,
    ) + "\n  docstring: "@ + match sym.docstring {
        Some(d) => d@,
        None => "(none)"@,
    } + "\n  hash: "@ + sym.full_hash@.subrange(0, DETAILS_HASH_LEN as int) + "\n\n"@
}

/// The details of one symbol, given its scope chain.
pub fn format_details(sym: &SymbolRow, scope: &Vec<String>) -> (r: String)
    requires
        sym.full_hash@.len() >= DETAILS_HASH_LEN,
    ensures
        r@ == details_of(*sym, scope@.map_values(|s: String| s@)),
{
    proof {
        reveal_strlit(" ");
        reveal_strlit(" (");
        reveal_strlit(":");
        reveal_strlit("–");
        reveal_strlit(")\n  signature: ");
        reveal_strlit("\n  scope: ");
        reveal_strlit("\n  docstring: ");
        reveal_strlit("(none)");
        reveal_strlit("\n  hash: ");
        reveal_strlit("\n\n");
    }
    let mut out = String::new();
    push_str(&mut out, sym.kind.as_str());
    push_str(&mut out, " ");
    push_str(&mut out, sym.name.as_str());
    push_str(&mut out, " (");
    push_str(&mut out, sym.file.as_str());
    push_str(&mut out, ":");
    push_str(&mut out, decimal_string(sym.line_start).as_str());
    push_str(&mut out, "–");
    push_str(&mut out, decimal_string(sym.line_end).as_str());
    push_str(&mut out, ")\n  signature: ");
    push_str(&mut out, sym.signature.as_str());
    push_str(&mut out, "\n  scope: ");
    push_str(&mut out, join_names(scope, " > ").as_str());
    push_str(&mut out, "\n  docstring: ");
    match &sym.docstring {
        Some(d) => push_str(&mut out, d.as_str()),
        None => push_str(&mut out, "(none)"),
    }
    push_str(&mut out, "\n  hash: ");
    let h = to_chars(sym.full_hash.as_str());
    push_str(&mut out, from_chars(slice_chars(h.as_slice(), 0, DETAILS_HASH_LEN).as_slice()).as_str());
    push_str(&mut out, "\n\n");
    out
}

/// A symbol reached by a walk of the call graph, with its place.
#[derive(Debug)]
pub struct WalkEntry {
    pub depth: usize,
    pub kind: String,
    pub name: String,
    pub file: String,
    pub line: usize,
}

/// One line of a walk report.
pub open spec fn walk_line(e: WalkEntry) -> Seq<char> {
    "  [depth "@ + decimal(e.depth as nat) + "] "@ + e.kind@ + " "@ + e.name@ + " ("@ + e.file@ + ":"@
        + decimal(e.line as nat) + ")\n"@
}

/// The report lines of the first `k` entries.
pub open spec fn walk_lines(es: Seq<WalkEntry>, k: int) -> Seq<char>
    decreases k,
{
    if k <= 0 {
        seq![]
    } else {
        walk_lines(es, k - 1) + walk_line(es[k - 1])
    }
}

/// The report of a walk from a symbol, over its callers or over its
/// dependencies, to the given depth: a line saying none were found when the
/// walk reached nothing, else a title and one line per symbol reached whose
/// row could be read.
pub open spec fn walk_report_of(
    callers: bool,
    name: Seq<char>,
    depth: nat,
    reached: bool,
    es: Seq<WalkEntry>,
) -> Seq<char> {
    let what = if callers {
        "callers"@
    } else {
        "dependencies"@
    };
    let title = if callers {
        "Callers"@
    } else {
        "Dependencies"@
    };
    if !reached {
        "No "@ + what + " found for "@ + name + "\n"@
    } else {
        title + " of "@ + name + " (depth "@ + decimal(depth) + "):\n"@ + walk_lines(es, es.len() as int)
    }
}

fn push_marked_annotation(out: &mut String, a: &AnnotationLine)
    ensures
        final(out)@ == old(out)@ + marked_annotation(*a),
{
    proof {
        reveal_strlit("  #");
        reveal_strlit(" [");
        reveal_strlit("] (");
        reveal_strlit("%, ");
        reveal_strlit("STALE");
        reveal_strlit("active");
        reveal_strlit(") ");
        reveal_strlit("\n");
        reveal_strlit("stale");
    }
    push_str(out, "  #");
    push_str(out, decimal_i64(a.id).as_str());
    push_str(out, " [");
    push_str(out, a.annotation_type.as_str());
    push_str(out, "] (");
    push_str(out, a.percent.as_str());
    push_str(out, "%, ");
    if same_text(a.status.as_str(), "stale") {
        push_str(out, "STALE");
    } else {
        push_str(out, "active");
    }
    push_str(out, ") ");
    push_str(out, a.content.as_str());
    push_str(out, "\n");
}

fn push_walk_line(out: &mut String, e: &WalkEntry)
    ensures
        final(out)@ == old(out)@ + walk_line(*e),
{
    proof {
        reveal_strlit("  [depth ");
        reveal_strlit("] ");
        reveal_strlit(" ");
        reveal_strlit(" (");
        reveal_strlit(":");
        reveal_strlit(")\n");
    }
    push_str(out, "  [depth ");
    push_str(out, decimal_string(e.depth).as_str());
    push_str(out, "] ");
    push_str(out, e.kind.as_str());
    push_str(out, " ");
    push_str(out, e.name.as_str());
    push_str(out, " (");
    push_str(out, e.file.as_str());
    push_str(out, ":");
    push_str(out, decimal_string(e.line).as_str());
    push_str(out, ")\n");
}

/// The report of a walk from the symbol `name` over its callers (or its
/// dependencies) to `depth`, given whether it reached any symbol and the
/// symbols reached whose rows could be read.
pub fn format_walk(callers: bool, name: &str, depth: usize, reached: bool, es: &Vec<WalkEntry>) -> (r: String)
    ensures
        r@ == walk_report_of(callers, name@, depth as nat, reached, es@),
{
    proof {
        reveal_strlit("callers");
        reveal_strlit("dependencies");
        reveal_strlit("Callers");
        reveal_strlit("Dependencies");
        reveal_strlit("No ");
        reveal_strlit(" found for ");
        reveal_strlit("\n");
        reveal_strlit(" of ");
        reveal_strlit(" (depth ");
        reveal_strlit("):\n");
    }
    let mut out = String::new();
    if !reached {
        push_str(&mut out, "No ");
        push_str(&mut out, if callers { "callers" } else { "dependencies" });
        push_str(&mut out, " found for ");
        push_str(&mut out, name);
        push_str(&mut out, "\n");
        return out;
    }
    push_str(&mut out, if callers { "Callers" } else { "Dependencies" });
    push_str(&mut out, " of ");
    push_str(&mut out, name);
    push_str(&mut out, " (depth ");
    push_str(&mut out, decimal_string(depth).as_str());
    push_str(&mut out, "):\n");
    let ghost head = out@;
    let mut i: usize = 0;
    while i < es.len()
        invariant
            i <= es.len(),
            out@ == head + walk_lines(es@, i as int),
        decreases es.len() - i,
    {
        push_walk_line(&mut out, &es[i]);
        assert(out@ =~= head + walk_lines(es@, i + 1));
        i = i + 1;
    }
    out
}

// ── Tiers ────────────────────────────────────────────────────────────────

/// The detail level of a context.
#[derive(Debug, Clone, Copy, PartialEq, Eq, Structural)]
pub enum Tier {
    Brief,
    Standard,
    Full,
    Deep,
}

/// The tier a name asks for: `brief`, `full` and `deep` by name, anything
/// else the standard tier.
pub open spec fn tier_named(name: Seq<char>) -> Tier {
    if name == "brief"@ {
        Tier::Brief
    } else if name == "full"@ {
        Tier::Full
    } else if name == "deep"@ {
        Tier::Deep
    } else {
        Tier::Standard
    }
}

/// The tier a name asks for.
pub fn tier_of(name: &str) -> (t: Tier)
    ensures
        t == tier_named(name@),
{
    if same_text(name, "brief") {
        Tier::Brief
    } else if same_text(name, "full") {
        Tier::Full
    } else if same_text(name, "deep") {
        Tier::Deep
    } else {
        Tier::Standard
    }
}

/// The context of a tier, from the brief text, the standard text, what the
/// full tier adds and what the deep tier adds: each tier above the standard
/// one extends the one below it.
pub open spec fn context_of(tier: Tier, brief: Seq<char>, standard: Seq<char>, full_extra: Seq<char>, deep_extra: Seq<char>) -> Seq<char> {
    match tier {
        Tier::Brief => brief,
        Tier::Standard => standard,
        Tier::Full => standard + full_extra,
        Tier::Deep => standard + full_extra + deep_extra,
    }
}

/// The context of `tier`, given its parts (those the tier does not show may
/// be empty).
pub fn compose_context(tier: Tier, brief: &str, standard: &str, full_extra: &str, deep_extra: &str) -> (r: String)
    ensures
        r@ == context_of(tier, brief@, standard@, full_extra@, deep_extra@),
{
    let mut out = String::new();
    match tier {
        Tier::Brief => {
            push_str(&mut out, brief);
        },
        Tier::Standard => {
            push_str(&mut out, standard);
        },
        Tier::Full => {
            push_str(&mut out, standard);
            push_str(&mut out, full_extra);
        },
        Tier::Deep => {
            push_str(&mut out, standard);
            push_str(&mut out, full_extra);
            push_str(&mut out, deep_extra);
        },
    }
    assert(out@ =~= context_of(tier, brief@, standard@, full_extra@, deep_extra@));
    out
}

/// Law: the full context begins with the standard one, and the deep context
/// begins with the full one.
pub proof fn law_tiers_extend(brief: Seq<char>, standard: Seq<char>, full_extra: Seq<char>, deep_extra: Seq<char>)
    ensures
        context_of(Tier::Full, brief, standard, full_extra, deep_extra).subrange(0, standard.len() as int)
            == context_of(Tier::Standard, brief, standard, full_extra, deep_extra),
        ({
            let full = context_of(Tier::Full, brief, standard, full_extra, deep_extra);
            context_of(Tier::Deep, brief, standard, full_extra, deep_extra).subrange(0, full.len() as int) == full
        }),
{
    let full = standard + full_extra;
    assert(full.subrange(0, standard.len() as int) =~= standard);
    assert((full + deep_extra).subrange(0, full.len() as int) =~= full);
}

} // verus!

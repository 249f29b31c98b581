//! Parameters of the MCP tools and the decisions the tools make on them:
//! reading symbol lists, checking statuses, and packing context into a
//! token budget.
use vstd::prelude::*;
use crate::attention::{all_kept, is_top_ranked, rank_all};
use crate::parser::languages::same_text;
use crate::text::{
    contains, contains_chars, decimal, decimal_string, from_chars, has_prefix, push_str, slice_chars,
    starts_with, to_chars, trim, trim_chars, utf8_len,
};

verus! {

// ── Tool parameter types ──────────────────────────────────────────────────

#[derive(Debug)]
pub struct GetSymbolParams {
    /// Symbol name to look up (exact or fuzzy)
    pub name: String,
}

#[derive(Debug)]
pub struct FindCallersParams {
    /// Symbol name to find callers for
    pub symbol: String,
    /// Maximum BFS depth (default 3)
    pub depth: Option<usize>,
}

#[derive(Debug)]
pub struct FindDependenciesParams {
    /// Symbol name to find dependencies for
    pub symbol: String,
    /// Maximum BFS depth (default 3)
    pub depth: Option<usize>,
}

#[derive(Debug)]
pub struct SearchSemanticParams {
    /// Natural language search query
    pub query: String,
    /// Maximum number of results (default 10)
    pub top_k: Option<usize>,
}

#[derive(Debug)]
pub struct GetFileSummaryParams {
    /// Relative file path
    pub file: String,
}

#[derive(Debug)]
pub struct AnnotateSymbolParams {
    /// Symbol name to annotate
    pub symbol: String,
    /// Annotation type: explanation, warning, todo, context, assumption
    pub annotation_type: String,
    /// Annotation content
    pub content: String,
}

#[derive(Debug)]
pub struct AnnotationIdParams {
    /// Annotation ID
    pub annotation_id: i64,
}

#[derive(Debug)]
pub struct RecordDecisionParams {
    /// Comma-separated symbol names related to this decision
    pub symbols: String,
    /// Description of the decision
    pub description: String,
    /// Rationale for the decision
    pub rationale: Option<String>,
    /// Alternatives that were considered and rejected
    pub alternatives: Option<String>,
}

#[derive(Debug)]
pub struct RecordPatternParams {
    /// Pattern name
    pub name: String,
    /// Pattern description
    pub description: String,
    /// Comma-separated symbol names that exhibit this pattern
    pub symbols: Option<String>,
}

#[derive(Debug)]
pub struct InsightIdParams {
    /// Insight ID
    pub insight_id: i64,
    /// New status: resolved or dismissed
    pub status: String,
}

#[derive(Debug)]
pub struct RiskScoreParams {
    /// Symbol name to compute risk for
    pub symbol: String,
}

#[derive(Debug)]
pub struct GetContextParams {
    /// Symbol name
    pub symbol: String,
    /// Detail tier: brief, standard, full, or deep (default: standard)
    pub tier: Option<String>,
}

#[derive(Debug)]
pub struct GetContextBatchParams {
    /// Comma-separated symbol names
    pub symbols: String,
    /// Maximum token budget
    pub budget: usize,
}

// ── Symbol lists ──────────────────────────────────────────────────────────

/// Index of the first `','` at or after `i`, or the length if none.
pub open spec fn comma_from(s: Seq<char>, i: int) -> int
    decreases s.len() - i,
{
    if i < 0 || i >= s.len() {
        s.len() as int
    } else if s[i] == ',' {
        i
    } else {
        comma_from(s, i + 1)
    }
}

proof fn lemma_comma_from(s: Seq<char>, i: int)
    requires
        0 <= i <= s.len(),
    ensures
        i <= comma_from(s, i) <= s.len(),
        forall|k: int| i <= k < comma_from(s, i) ==> s[k] != ',',
        comma_from(s, i) < s.len() ==> s[comma_from(s, i)] == ',',
    decreases s.len() - i,
{
    if i < s.len() && s[i] != ',' {
        lemma_comma_from(s, i + 1);
    }
}

/// `str::split(',')` from position `start`: the pieces between commas,
/// empty ones included.
pub open spec fn pieces_from(s: Seq<char>, start: int) -> Seq<Seq<char>>
    decreases s.len() + 1 - start,
    via pieces_from_decreases
{
    if start < 0 || start > s.len() {
        seq![]
    } else {
        let e = comma_from(s, start);
        if e >= s.len() {
            seq![s.subrange(start, s.len() as int)]
        } else {
            seq![s.subrange(start, e)] + pieces_from(s, e + 1)
        }
    }
}

#[via_fn]
proof fn pieces_from_decreases(s: Seq<char>, start: int) {
    if 0 <= start <= s.len() {
        lemma_comma_from(s, start);
    }
}

/// The names of a comma-separated list, each trimmed.
pub open spec fn split_names_of(s: Seq<char>) -> Seq<Seq<char>> {
    pieces_from(s, 0).map_values(|p: Seq<char>| trim(p))
}

/// The names of a comma-separated list, each trimmed.
pub fn split_names(list: &str) -> (r: Vec<String>)
    ensures
        r@.map_values(|x: String| x@) == split_names_of(list@),
{
    let cs = to_chars(list);
    let ghost s = cs@;
    let mut out: Vec<String> = Vec::new();
    let mut start: usize = 0;
    let mut i: usize = 0;
    loop
        invariant_except_break
            out@.map_values(|x: String| x@) + pieces_from(s, start as int).map_values(
                |p: Seq<char>| trim(p),
            ) == split_names_of(s),
        invariant
            s == cs@,
            s == list@,
            start <= i <= cs.len(),
            forall|k: int| start <= k < i ==> s[k] != ',',
        ensures
            out@.map_values(|x: String| x@) == split_names_of(s),
        decreases cs.len() - i,
    {
        if i == cs.len() || cs[i] == ',' {
            proof {
                lemma_comma_from(s, start as int);
                assert(comma_from(s, start as int) == i) by {
                    if comma_from(s, start as int) < i {
                        assert(s[comma_from(s, start as int)] == ',');
                    }
                    if comma_from(s, start as int) > i {
                        assert(s[i as int] != ',');
                    }
                }
            }
            let piece = slice_chars(cs.as_slice(), start, i);
            let name = from_chars(trim_chars(piece.as_slice()).as_slice());
            let ghost before = out@.map_values(|x: String| x@);
            out.push(name);
            proof {
                assert(out@.map_values(|x: String| x@) =~= before.push(trim(s.subrange(start as int, i as int))));
            }
            if i == cs.len() {
                proof {
                    assert(pieces_from(s, start as int) == seq![s.subrange(start as int, i as int)]);
                    assert(pieces_from(s, start as int).map_values(|p: Seq<char>| trim(p)) =~= seq![
                        trim(s.subrange(start as int, i as int)),
                    ]);
                    assert(before + seq![trim(s.subrange(start as int, i as int))] =~= before.push(
                        trim(s.subrange(start as int, i as int)),
                    ));
                    assert(pieces_from(s, cs.len() + 1) =~= seq![]);
                }
                assert(out@.map_values(|x: String| x@) =~= split_names_of(s));
                break;
            }
            proof {
                let rest = pieces_from(s, i + 1);
                assert(pieces_from(s, start as int) == seq![s.subrange(start as int, i as int)] + rest);
                assert(pieces_from(s, start as int).map_values(|p: Seq<char>| trim(p)) =~= seq![
                    trim(s.subrange(start as int, i as int)),
                ] + rest.map_values(|p: Seq<char>| trim(p)));
                assert(before + (seq![trim(s.subrange(start as int, i as int))] + rest.map_values(
                    |p: Seq<char>| trim(p),
                )) =~= before.push(trim(s.subrange(start as int, i as int))) + rest.map_values(
                    |p: Seq<char>| trim(p),
                ));
            }
            i = i + 1;
            start = i;
        } else {
            i = i + 1;
        }
    }
    out
}

// ── Insight statuses ──────────────────────────────────────────────────────

/// A status an insight can be resolved to.
pub open spec fn is_resolution(status: Seq<char>) -> bool {
    status == "resolved"@ || status == "dismissed"@
}

/// Whether an insight may be given this status.
pub fn is_resolution_status(status: &str) -> (b: bool)
    ensures
        b == is_resolution(status@),
{
    same_text(status, "resolved") || same_text(status, "dismissed")
}

// ── Insights and modules ──────────────────────────────────────────────────

/// A symbol with more callers than this is a god node.
pub const GOD_NODE_MIN_CALLERS: usize = 10;

/// What the god-node insight on a symbol says.
pub open spec fn god_node_text(kind: Seq<char>, name: Seq<char>, callers: nat) -> Seq<char> {
    kind + " "@ + name + " has "@ + decimal(callers) + " callers — high coupling risk"@
}

/// The god-node insight on a symbol with this many callers: there is one
/// exactly when it has more than `GOD_NODE_MIN_CALLERS` callers.
pub fn god_node_insight(kind: &str, name: &str, callers: usize) -> (r: Option<String>)
    ensures
        r is Some <==> callers > GOD_NODE_MIN_CALLERS,
        r is Some ==> r->0@ == god_node_text(kind@, name@, callers as nat),
{
    if callers > GOD_NODE_MIN_CALLERS {
        let mut out = String::new();
        push_str(&mut out, kind);
        push_str(&mut out, " ");
        push_str(&mut out, name);
        push_str(&mut out, " has ");
        push_str(&mut out, decimal_string(callers).as_str());
        push_str(&mut out, " callers — high coupling risk");
        proof {
            reveal_strlit(" ");
            reveal_strlit(" has ");
            reveal_strlit(" callers — high coupling risk");
        }
        Some(out)
    } else {
        None
    }
}

/// A file belongs to a module path when it starts with it or holds it.
pub open spec fn in_module_of(file: Seq<char>, module: Seq<char>) -> bool {
    starts_with(file, module) || contains(file, module)
}

/// Whether a file belongs to the module at this path.
pub fn in_module(file: &str, module: &str) -> (b: bool)
    ensures
        b == in_module_of(file@, module@),
{
    let f = to_chars(file);
    let m = to_chars(module);
    has_prefix(f.as_slice(), m.as_slice()) || contains_chars(f.as_slice(), m.as_slice())
}

// ── Context packing ───────────────────────────────────────────────────────

/// The number of bytes of a text's UTF-8 encoding.
pub open spec fn byte_len(text: Seq<char>) -> nat {
    vstd::utf8::encode_utf8(text).len()
}

/// Estimated tokens of a text: a quarter of its bytes, rounded up.
pub open spec fn est_tokens(text: Seq<char>) -> nat {
    (byte_len(text) + 3) / 4
}

/// What the brief pass adds for one symbol: its brief and a separator.
pub open spec fn brief_piece(text: Seq<char>) -> Seq<char> {
    text + "---\n"@
}

/// What the upgrade pass adds for one symbol: a header naming it, then its
/// standard context.
pub open spec fn upgrade_piece(name: Seq<char>, text: Seq<char>) -> Seq<char> {
    "\n[Upgraded: "@ + name + "]\n"@ + text
}

/// One step of the brief pass: the brief and its separator are added when
/// their estimated tokens fit the remaining budget, and charged to it.
pub open spec fn brief_step(st: (Seq<char>, int), text: Seq<char>) -> (Seq<char>, int) {
    let piece = brief_piece(text);
    if est_tokens(piece) <= st.1 {
        (st.0 + piece, st.1 - est_tokens(piece))
    } else {
        st
    }
}

/// The output and remaining budget after the briefs of the first `k`
/// symbols.
pub open spec fn brief_pass(briefs: Seq<Seq<char>>, budget: int, k: int) -> (Seq<char>, int)
    decreases k,
{
    if k <= 0 {
        (seq![], budget)
    } else {
        brief_step(brief_pass(briefs, budget, k - 1), briefs[k - 1])
    }
}

/// One step of the upgrade pass: once under 100 tokens remain nothing more
/// is added; otherwise the header and standard context are added when
/// their estimated tokens fit, and charged to the budget.
pub open spec fn upgrade_step(st: (Seq<char>, int), name: Seq<char>, text: Seq<char>) -> (Seq<char>, int) {
    let piece = upgrade_piece(name, text);
    if st.1 < 100 {
        st
    } else if est_tokens(piece) <= st.1 {
        (st.0 + piece, st.1 - est_tokens(piece))
    } else {
        st
    }
}

/// The output and remaining budget after upgrading the symbols
/// `order[0..k]`.
pub open spec fn upgrade_pass(
    names: Seq<Seq<char>>,
    standards: Seq<Seq<char>>,
    order: Seq<usize>,
    start: (Seq<char>, int),
    k: int,
) -> (Seq<char>, int)
    decreases k,
{
    if k <= 0 {
        start
    } else {
        let j = order[k - 1] as int;
        upgrade_step(upgrade_pass(names, standards, order, start, k - 1), names[j], standards[j])
    }
}

/// The order of the upgrades: the most attention first, ties in the order
/// requested.
pub open spec fn upgrade_order(attention: Seq<usize>) -> Seq<usize> {
    choose|o: Seq<usize>| is_top_ranked(o, attention, all_kept(attention.len() as int), attention.len() as int)
}

/// The packed context of a batch: briefs, in the order requested, for as
/// many symbols as fit, then standard contexts, highest attention first,
/// for as many as still fit.
pub open spec fn packed_batch(
    names: Seq<Seq<char>>,
    briefs: Seq<Seq<char>>,
    standards: Seq<Seq<char>>,
    attention: Seq<usize>,
    budget: int,
) -> (Seq<char>, int) {
    upgrade_pass(
        names,
        standards,
        upgrade_order(attention),
        brief_pass(briefs, budget, briefs.len() as int),
        names.len() as int,
    )
}

/// The texts of a batch are within what a string can hold, with room for
/// the separators and headers.
pub open spec fn batch_fits(names: Seq<Seq<char>>, briefs: Seq<Seq<char>>, standards: Seq<Seq<char>>) -> bool {
    &&& forall|i: int| 0 <= i < briefs.len() ==> byte_len(#[trigger] briefs[i]) + 4 <= usize::MAX
    &&& forall|i: int|
        0 <= i < names.len() && i < standards.len() ==> byte_len(#[trigger] names[i]) + byte_len(
            standards[i],
        ) + 14 <= usize::MAX
}

/// Encoding a concatenation concatenates the encodings.
pub proof fn lemma_byte_len_concat(a: Seq<char>, b: Seq<char>)
    ensures
        byte_len(a + b) == byte_len(a) + byte_len(b),
    decreases a.len(),
{
    if a.len() == 0 {
        assert(a + b =~= b);
    } else {
        lemma_byte_len_concat(a.drop_first(), b);
        assert((a + b).drop_first() =~= a.drop_first() + b);
        assert((a + b)[0] == a[0]);
    }
}

proof fn lemma_literal_bytes()
    ensures
        byte_len("---\n"@) == 4,
        byte_len("\n[Upgraded: "@) == 12,
        byte_len("]\n"@) == 2,
{
    reveal_strlit("---\n");
    reveal_strlit("\n[Upgraded: ");
    reveal_strlit("]\n");
    vstd::utf8::is_ascii_chars_encode_utf8("---\n"@);
    vstd::utf8::is_ascii_chars_encode_utf8("\n[Upgraded: "@);
    vstd::utf8::is_ascii_chars_encode_utf8("]\n"@);
}

/// Packs the brief and standard contexts of the symbols into a token
/// budget: briefs in the order requested, then upgrades to standard
/// contexts, the symbols with the most attention first. With no symbols the
/// answer says so.
pub fn pack_context_batch(
    names: &Vec<String>,
    briefs: &Vec<String>,
    standards: &Vec<String>,
    attention: &Vec<usize>,
    budget: usize,
) -> (r: String)
    requires
        briefs.len() == names.len(),
        standards.len() == names.len(),
        attention.len() == names.len(),
        batch_fits(
            names@.map_values(|x: String| x@),
            briefs@.map_values(|x: String| x@),
            standards@.map_values(|x: String| x@),
        ),
    ensures
        names.len() == 0 ==> r@ == "No symbols found."@,
        names.len() > 0 ==> r@ == packed_batch(
            names@.map_values(|x: String| x@),
            briefs@.map_values(|x: String| x@),
            standards@.map_values(|x: String| x@),
            attention@,
            budget as int,
        ).0,
        names.len() > 0 ==> est_tokens(r@) <= budget,
{
    if names.len() == 0 {
        return "No symbols found.".to_owned();
    }
    let ghost ns = names@.map_values(|x: String| x@);
    let ghost bs = briefs@.map_values(|x: String| x@);
    let ghost ss = standards@.map_values(|x: String| x@);
    let sep = "---\n";
    let head = "\n[Upgraded: ";
    let tail = "]\n";
    proof {
        lemma_literal_bytes();
    }
    let mut out = String::new();
    let mut rem: usize = budget;
    let mut i: usize = 0;
    while i < briefs.len()
        invariant
            i <= briefs.len(),
            bs == briefs@.map_values(|x: String| x@),
            batch_fits(ns, bs, ss),
            sep@ == "---\n"@,
            byte_len(sep@) == 4,
            brief_pass(bs, budget as int, i as int) == (out@, rem as int),
        decreases briefs.len() - i,
    {
        assert(bs[i as int] == briefs@[i as int]@);
        assert(byte_len(bs[i as int]) + 4 <= usize::MAX);
        let n = briefs[i].as_str().len() + sep.len();
        proof {
            lemma_byte_len_concat(bs[i as int], "---\n"@);
        }
        let est = crate::parser::chunking::estimate_tokens(n);
        if est <= rem {
            push_str(&mut out, briefs[i].as_str());
            push_str(&mut out, sep);
            rem = rem - est;
        }
        i = i + 1;
    }
    let ghost mid = (out@, rem as int);
    let order = rank_all(attention);
    proof {
        let o = upgrade_order(attention@);
        assert(is_top_ranked(o, attention@, all_kept(attention@.len() as int), attention@.len() as int));
        crate::attention::law_top_ranked_unique(
            order@,
            o,
            attention@,
            all_kept(attention@.len() as int),
            attention@.len() as int,
        );
    }
    let mut k: usize = 0;
    while k < order.len()
        invariant
            k <= order.len(),
            order.len() == names.len(),
            order@ == upgrade_order(attention@),
            forall|q: int| 0 <= q < order.len() ==> (#[trigger] order@[q]) < names.len(),
            standards.len() == names.len(),
            ns == names@.map_values(|x: String| x@),
            ss == standards@.map_values(|x: String| x@),
            batch_fits(ns, bs, ss),
            head@ == "\n[Upgraded: "@,
            tail@ == "]\n"@,
            byte_len(head@) == 12,
            byte_len(tail@) == 2,
            upgrade_pass(ns, ss, order@, mid, k as int) == (out@, rem as int),
        decreases order.len() - k,
    {
        let j = order[k];
        assert(ns[j as int] == names@[j as int]@);
        assert(ss[j as int] == standards@[j as int]@);
        if rem >= 100 {
            assert(byte_len(ns[j as int]) + byte_len(ss[j as int]) + 14 <= usize::MAX);
            proof {
                lemma_byte_len_concat("\n[Upgraded: "@, ns[j as int]);
                lemma_byte_len_concat("\n[Upgraded: "@ + ns[j as int], "]\n"@);
                lemma_byte_len_concat("\n[Upgraded: "@ + ns[j as int] + "]\n"@, ss[j as int]);
            }
            let n = head.len() + names[j].as_str().len() + tail.len() + standards[j].as_str().len();
            let est = crate::parser::chunking::estimate_tokens(n);
            if est <= rem {
                push_str(&mut out, head);
                push_str(&mut out, names[j].as_str());
                push_str(&mut out, tail);
                push_str(&mut out, standards[j].as_str());
                assert(out@ =~= upgrade_pass(ns, ss, order@, mid, k as int).0 + upgrade_piece(
                    ns[j as int],
                    ss[j as int],
                ));
                rem = rem - est;
            }
        }
        k = k + 1;
    }
    proof {
        law_batch_within_budget(ns, bs, ss, attention@, budget as nat);
    }
    out
}

proof fn lemma_brief_pass_bounds(briefs: Seq<Seq<char>>, budget: int, k: int)
    requires
        budget >= 0,
    ensures
        0 <= brief_pass(briefs, budget, k).1 <= budget,
        byte_len(brief_pass(briefs, budget, k).0) <= 4 * (budget - brief_pass(briefs, budget, k).1),
    decreases k,
{
    if k > 0 {
        lemma_brief_pass_bounds(briefs, budget, k - 1);
        let st = brief_pass(briefs, budget, k - 1);
        lemma_byte_len_concat(st.0, brief_piece(briefs[k - 1]));
    } else {
        assert(byte_len(Seq::<char>::empty()) == 0);
    }
}

proof fn lemma_upgrade_pass_bounds(
    names: Seq<Seq<char>>,
    standards: Seq<Seq<char>>,
    order: Seq<usize>,
    start: (Seq<char>, int),
    budget: int,
    k: int,
)
    requires
        0 <= start.1 <= budget,
        byte_len(start.0) <= 4 * (budget - start.1),
    ensures
        0 <= upgrade_pass(names, standards, order, start, k).1 <= start.1,
        byte_len(upgrade_pass(names, standards, order, start, k).0) <= 4 * (budget - upgrade_pass(
            names,
            standards,
            order,
            start,
            k,
        ).1),
    decreases k,
{
    if k > 0 {
        lemma_upgrade_pass_bounds(names, standards, order, start, budget, k - 1);
        let st = upgrade_pass(names, standards, order, start, k - 1);
        let j = order[k - 1] as int;
        lemma_byte_len_concat(st.0, upgrade_piece(names[j], standards[j]));
    }
}

/// A packed batch stays within its budget: the estimated tokens of the whole
/// output, separators and headers included, never exceed it.
pub proof fn law_batch_within_budget(
    names: Seq<Seq<char>>,
    briefs: Seq<Seq<char>>,
    standards: Seq<Seq<char>>,
    attention: Seq<usize>,
    budget: nat,
)
    ensures
        est_tokens(packed_batch(names, briefs, standards, attention, budget as int).0) <= budget,
{
    lemma_brief_pass_bounds(briefs, budget as int, briefs.len() as int);
    lemma_upgrade_pass_bounds(
        names,
        standards,
        upgrade_order(attention),
        brief_pass(briefs, budget as int, briefs.len() as int),
        budget as int,
        names.len() as int,
    );
}

/// The first symbol's brief is always packed when it fits the budget with
/// its separator.
pub proof fn law_first_brief_fits(briefs: Seq<Seq<char>>, budget: nat)
    requires
        briefs.len() > 0,
        est_tokens(brief_piece(briefs[0])) <= budget,
    ensures
        brief_pass(briefs, budget as int, 1).0 == briefs[0] + "---\n"@,
{
    assert(brief_pass(briefs, budget as int, 0) == (Seq::<char>::empty(), budget as int));
    assert(Seq::<char>::empty() + (briefs[0] + "---\n"@) =~= briefs[0] + "---\n"@);
}

} // verus!

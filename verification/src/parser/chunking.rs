//! Sub-symbol chunking: large bodies are split into consecutive groups of
//! lines at statement boundaries.
use vstd::prelude::*;
use crate::hashing::{sha256_hex, sha256_hex_of};
use crate::parser::treesitter::Symbol;
use crate::text::{
    char_is_whitespace, clone_strings, count_non_ws, count_nws_chars, decimal, decimal_string,
    from_chars, has_prefix, is_white_space, join, trim_end, trim_start, join_range, lemma_join_push, lines, push_str, split_lines,
    starts_with, to_chars, trim, trim_bounds, utf8_len, views,
};

verus! {

/// Maximum non-whitespace characters per chunk before splitting.
pub const MAX_NWS_CHARS: usize = 500;

/// A piece of a large symbol body.
#[derive(Debug)]
pub struct Chunk {
    pub id: String,
    pub symbol_id: String,
    pub chunk_index: usize,
    pub content: String,
    pub line_start: usize,
    pub line_end: usize,
    pub token_count: usize,
    pub nws_count: usize,
    pub body_hash: String,
    /// Inherited from parent symbol
    pub scope_chain: Vec<String>,
}

/// Tokens estimated from a character count: one token per four characters,
/// rounded up.
pub open spec fn tokens_for(char_count: nat) -> nat {
    (char_count + 3) / 4
}

/// A line at which a chunk may end: its trimmed text ends with `;`, `{`,
/// `}` or `:`, or is empty, or the line is non-empty and starts neither with
/// four spaces nor with a tab.
pub open spec fn is_boundary_line(line: Seq<char>) -> bool {
    let t = trim(line);
    ||| t.len() == 0
    ||| t.last() == ';'
    ||| t.last() == '{'
    ||| t.last() == '}'
    ||| t.last() == ':'
    ||| (line.len() > 0 && !starts_with(line, "    "@) && !(line[0] == '\t'))
}

/// The index of the line that closes the group whose lines from `k` on are
/// still to be read, `acc` non-whitespace characters having been read
/// already: the first line at which the count reaches the maximum and which
/// is a boundary, or `None` if the text ends first.
pub open spec fn group_end(ls: Seq<Seq<char>>, k: int, acc: nat) -> Option<int>
    decreases ls.len() - k,
{
    if k < 0 || k >= ls.len() {
        None
    } else {
        let acc2 = acc + count_non_ws(ls[k]);
        if acc2 >= MAX_NWS_CHARS && is_boundary_line(ls[k]) {
            Some(k)
        } else {
            group_end(ls, k + 1, acc2)
        }
    }
}

/// The groups of lines from line `from` on, as `(first, last, closed)`:
/// `closed` is false only for a final group that the text ended.
pub open spec fn groups_from(ls: Seq<Seq<char>>, from: int) -> Seq<(int, int, bool)>
    decreases ls.len() + 1 - from,
    via groups_from_decreases
{
    if from < 0 || from >= ls.len() {
        seq![]
    } else {
        match group_end(ls, from, 0) {
            Some(e) => seq![(from, e, true)] + groups_from(ls, e + 1),
            None => seq![(from, ls.len() - 1, false)],
        }
    }
}

#[via_fn]
proof fn groups_from_decreases(ls: Seq<Seq<char>>, from: int) {
    if !(from < 0 || from >= ls.len()) {
        lemma_group_end_range(ls, from, 0);
    }
}

/// The groups of a body's lines.
pub open spec fn body_groups(body: Seq<char>) -> Seq<(int, int, bool)> {
    groups_from(lines(body), 0)
}

/// The text of group `g` of `body`: its lines joined with `'\n'`.
pub open spec fn group_text(body: Seq<char>, g: (int, int, bool)) -> Seq<char> {
    join(lines(body).subrange(g.0, g.1 + 1), "\n"@)
}

/// Identifier of chunk `index` of the symbol `symbol_id`.
pub open spec fn chunk_id_of(symbol_id: Seq<char>, index: nat) -> Seq<char> {
    sha256_hex_of(symbol_id + ":chunk:"@ + decimal(index))
}

/// `ch` is chunk number `c` of `sym`, made from group `g`.
pub open spec fn is_chunk_of(ch: Chunk, sym: Symbol, c: int, g: (int, int, bool)) -> bool {
    let content = group_text(sym.body@, g);
    &&& ch.chunk_index == c
    &&& ch.content@ == content
    &&& ch.line_start == sym.line_start + g.0
    &&& ch.line_end == if g.2 {
        sym.line_start + g.1
    } else {
        sym.line_end as int
    }
    &&& ch.nws_count == count_non_ws(content)
    &&& ch.token_count == tokens_for(utf8_len(content) as nat)
    &&& ch.body_hash@ == sha256_hex_of(content)
    &&& ch.body_hash@.len() == 64
    &&& ch.id@ == chunk_id_of(sym.id@, c as nat)
    &&& ch.symbol_id@ == sym.id@
    &&& ch.scope_chain@.len() == sym.scope_chain@.len()
    &&& forall|k: int|
        0 <= k < sym.scope_chain@.len() ==> #[trigger] ch.scope_chain@[k]@ == sym.scope_chain@[k]@
}

/// The body of `sym` needs chunking: it has more non-whitespace characters
/// than the maximum and splits into at least two groups.
pub open spec fn needs_chunking(sym: Symbol) -> bool {
    count_non_ws(sym.body@) > MAX_NWS_CHARS && body_groups(sym.body@).len() > 1
}

// ── Lemmas ───────────────────────────────────────────────────────────────

proof fn lemma_group_end_range(ls: Seq<Seq<char>>, k: int, acc: nat)
    requires
        0 <= k,
    ensures
        group_end(ls, k, acc) matches Some(e) ==> k <= e < ls.len(),
    decreases ls.len() - k,
{
    if k < ls.len() {
        lemma_group_end_range(ls, k + 1, acc + count_non_ws(ls[k]));
    }
}

/// Only whether the count has reached the maximum matters.
proof fn lemma_group_end_cap(ls: Seq<Seq<char>>, k: int, a: nat, b: nat)
    requires
        a >= MAX_NWS_CHARS && b >= MAX_NWS_CHARS || a == b,
    ensures
        group_end(ls, k, a) == group_end(ls, k, b),
    decreases ls.len() - k,
{
    if 0 <= k < ls.len() {
        lemma_group_end_cap(ls, k + 1, a + count_non_ws(ls[k]), b + count_non_ws(ls[k]));
    }
}

/// The groups from line `from` on cover lines `from..ls.len()` one after the
/// other, and only the last one may be left open.
proof fn lemma_groups_cover(ls: Seq<Seq<char>>, from: int)
    requires
        0 <= from,
    ensures
        ({
            let gs = groups_from(ls, from);
            &&& (gs.len() == 0) == (from >= ls.len())
            &&& gs.len() > 0 ==> gs[0].0 == from && gs.last().1 == ls.len() - 1
            &&& forall|c: int| 0 <= c < gs.len() ==> gs[c].0 <= #[trigger] gs[c].1
            &&& forall|c: int|
                0 <= c < gs.len() - 1 ==> #[trigger] gs[c].2 && gs[c + 1].0 == gs[c].1 + 1
        }),
    decreases ls.len() + 1 - from,
{
    if from < ls.len() {
        lemma_group_end_range(ls, from, 0);
        match group_end(ls, from, 0) {
            Some(e) => {
                lemma_groups_cover(ls, e + 1);
                let gs = groups_from(ls, from);
                let rest = groups_from(ls, e + 1);
                assert(gs == seq![(from, e, true)] + rest);
                if rest.len() > 0 {
                    assert(gs.last() == rest.last());
                } else {
                    assert(e + 1 >= ls.len());
                }
                assert(gs[0] == (from, e, true));
                assert forall|c: int| 0 <= c < gs.len() - 1 implies #[trigger] gs[c].2 && gs[c
                    + 1].0 == gs[c].1 + 1 by {
                    if c > 0 {
                        assert(gs[c] == rest[c - 1]);
                        assert(gs[c + 1] == rest[c]);
                    }
                }
                assert forall|c: int| 0 <= c < gs.len() implies gs[c].0 <= #[trigger] gs[c].1 by {
                    if c > 0 {
                        assert(gs[c] == rest[c - 1]);
                    }
                }
            },
            None => {
                assert(groups_from(ls, from) == seq![(from, ls.len() - 1, false)]);
            },
        }
    }
}

/// Law: the groups of a body cover all of its lines in order, one after the
/// other, every group but the last closed at a boundary. So the chunks of a
/// symbol have contiguous, increasing line ranges.
pub proof fn law_groups_partition_lines(body: Seq<char>)
    ensures
        ({
            let gs = body_groups(body);
            let n = lines(body).len();
            &&& (gs.len() == 0) == (n == 0)
            &&& gs.len() > 0 ==> gs[0].0 == 0 && gs.last().1 == n - 1
            &&& forall|c: int| 0 <= c < gs.len() ==> gs[c].0 <= #[trigger] gs[c].1
            &&& forall|c: int|
                0 <= c < gs.len() - 1 ==> #[trigger] gs[c].2 && gs[c + 1].0 == gs[c].1 + 1
        }),
{
    lemma_groups_cover(lines(body), 0);
}

/// Law: a chunk of a symbol ends on the line before the next chunk starts.
pub proof fn law_chunks_contiguous(sym: Symbol, chunks: Seq<Chunk>)
    requires
        needs_chunking(sym),
        chunks.len() == body_groups(sym.body@).len(),
        forall|c: int|
            0 <= c < chunks.len() ==> is_chunk_of(
                #[trigger] chunks[c],
                sym,
                c,
                body_groups(sym.body@)[c],
            ),
    ensures
        forall|c: int|
            0 <= c < chunks.len() - 1 ==> #[trigger] chunks[c + 1].line_start == chunks[c].line_end
                + 1,
        forall|c: int| 0 <= c < chunks.len() ==> #[trigger] chunks[c].line_start <= chunks[c].line_end || c == chunks.len() - 1,
{
    law_groups_partition_lines(sym.body@);
    let gs = body_groups(sym.body@);
    assert forall|c: int| 0 <= c < chunks.len() - 1 implies #[trigger] chunks[c + 1].line_start
        == chunks[c].line_end + 1 by {
        assert(is_chunk_of(chunks[c], sym, c, gs[c]));
        assert(is_chunk_of(chunks[c + 1], sym, c + 1, gs[c + 1]));
        assert(gs[c].2);
    }
    assert forall|c: int| 0 <= c < chunks.len() implies #[trigger] chunks[c].line_start <= chunks[c].line_end || c == chunks.len() - 1 by {
        assert(is_chunk_of(chunks[c], sym, c, gs[c]));
        if c < chunks.len() - 1 {
            assert(gs[c].2);
            assert(gs[c].0 <= gs[c].1);
        }
    }
}

/// Non-whitespace characters of lines `a..b` of `ls`.
pub open spec fn nws_of_lines(ls: Seq<Seq<char>>, a: int, b: int) -> nat
    decreases b - a,
{
    if a >= b {
        0
    } else {
        count_non_ws(ls[a]) + nws_of_lines(ls, a + 1, b)
    }
}

proof fn lemma_nws_of_lines_last(ls: Seq<Seq<char>>, a: int, b: int)
    requires
        a < b,
    ensures
        nws_of_lines(ls, a, b) == nws_of_lines(ls, a, b - 1) + count_non_ws(ls[b - 1]),
    decreases b - a,
{
    if a + 1 < b {
        lemma_nws_of_lines_last(ls, a + 1, b);
        assert(nws_of_lines(ls, a, b - 1) == count_non_ws(ls[a]) + nws_of_lines(ls, a + 1, b - 1));
    } else {
        assert(nws_of_lines(ls, a + 1, b) == 0);
        assert(nws_of_lines(ls, a, b - 1) == 0);
    }
}

proof fn lemma_count_non_ws_concat(x: Seq<char>, y: Seq<char>)
    ensures
        count_non_ws(x + y) == count_non_ws(x) + count_non_ws(y),
    decreases y.len(),
{
    if y.len() > 0 {
        lemma_count_non_ws_concat(x, y.drop_last());
        assert((x + y).drop_last() =~= x + y.drop_last());
        assert((x + y).last() == y.last());
    } else {
        assert(x + y =~= x);
    }
}

/// The lines `a..b` joined with newlines have as many non-whitespace
/// characters as the lines together.
proof fn lemma_count_join(ls: Seq<Seq<char>>, a: int, b: int)
    requires
        0 <= a < b <= ls.len(),
    ensures
        count_non_ws(join(ls.subrange(a, b), "\n"@)) == nws_of_lines(ls, a, b),
    decreases b - a,
{
    lemma_nws_of_lines_last(ls, a, b);
    if b == a + 1 {
        assert(ls.subrange(a, b) =~= seq![ls[a]]);
    } else {
        lemma_count_join(ls, a, b - 1);
        assert(ls.subrange(a, b) =~= ls.subrange(a, b - 1).push(ls[b - 1]));
        lemma_join_push(ls.subrange(a, b - 1), "\n"@, ls[b - 1]);
        let left = join(ls.subrange(a, b - 1), "\n"@);
        lemma_count_non_ws_concat(left, "\n"@);
        lemma_count_non_ws_concat(left + "\n"@, ls[b - 1]);
        reveal_strlit("\n");
        assert("\n"@ =~= seq!['\n']);
        assert(seq!['\n'].drop_last() =~= seq![]);
        assert(is_white_space('\n'));
        assert(count_non_ws(seq!['\n']) == 0) by {
            reveal_with_fuel(count_non_ws, 2);
        }
    }
}

/// Joining lines `i..j` and lines `j..k` with a newline between gives lines
/// `i..k` joined.
proof fn lemma_join_split(ls: Seq<Seq<char>>, i: int, j: int, k: int)
    requires
        0 <= i < j < k <= ls.len(),
    ensures
        join(ls.subrange(i, k), "\n"@) == join(ls.subrange(i, j), "\n"@) + "\n"@ + join(ls.subrange(j, k), "\n"@),
    decreases k - j,
{
    assert(ls.subrange(i, k) =~= ls.subrange(i, k - 1).push(ls[k - 1]));
    lemma_join_push(ls.subrange(i, k - 1), "\n"@, ls[k - 1]);
    if k == j + 1 {
        assert(ls.subrange(j, k) =~= seq![ls[j]]);
        assert(ls.subrange(i, k - 1) =~= ls.subrange(i, j));
    } else {
        lemma_join_split(ls, i, j, k - 1);
        assert(ls.subrange(j, k) =~= ls.subrange(j, k - 1).push(ls[k - 1]));
        lemma_join_push(ls.subrange(j, k - 1), "\n"@, ls[k - 1]);
        let a = join(ls.subrange(i, j), "\n"@);
        let b = join(ls.subrange(j, k - 1), "\n"@);
        assert(a + "\n"@ + b + "\n"@ + ls[k - 1] =~= a + "\n"@ + (b + "\n"@ + ls[k - 1]));
    }
}

/// A group closed at line `e` has reached the maximum by then.
proof fn lemma_group_end_full(ls: Seq<Seq<char>>, k: int, acc: nat)
    requires
        0 <= k,
    ensures
        group_end(ls, k, acc) matches Some(e) ==> acc + nws_of_lines(ls, k, e + 1) >= MAX_NWS_CHARS,
    decreases ls.len() - k,
{
    if k < ls.len() {
        let acc2 = acc + count_non_ws(ls[k]);
        lemma_group_end_full(ls, k + 1, acc2);
        lemma_group_end_range(ls, k + 1, acc2);
    }
}

/// Every closed group ends where `group_end` closes it.
proof fn lemma_closed_groups(ls: Seq<Seq<char>>, from: int)
    requires
        0 <= from,
    ensures
        forall|c: int|
            0 <= c < groups_from(ls, from).len() && (#[trigger] groups_from(ls, from)[c]).2 ==> group_end(
                ls,
                groups_from(ls, from)[c].0,
                0,
            ) == Some(groups_from(ls, from)[c].1),
    decreases ls.len() + 1 - from,
{
    if from < ls.len() {
        lemma_group_end_range(ls, from, 0);
        match group_end(ls, from, 0) {
            Some(e) => {
                lemma_closed_groups(ls, e + 1);
                let gs = groups_from(ls, from);
                let rest = groups_from(ls, e + 1);
                assert forall|c: int| 0 <= c < gs.len() && (#[trigger] gs[c]).2 implies group_end(ls, gs[c].0, 0)
                    == Some(gs[c].1) by {
                    if c > 0 {
                        assert(gs[c] == rest[c - 1]);
                    }
                }
            },
            None => {},
        }
    }
}

/// The texts of the first `m` groups, joined with newlines, are the body's
/// lines up to the end of group `m - 1`, joined with newlines.
proof fn lemma_groups_rejoin(ls: Seq<Seq<char>>, gs: Seq<(int, int, bool)>, texts: Seq<Seq<char>>, m: int)
    requires
        gs == groups_from(ls, 0),
        texts.len() == gs.len(),
        forall|c: int| 0 <= c < gs.len() ==> #[trigger] texts[c] == join(ls.subrange(gs[c].0, gs[c].1 + 1), "\n"@),
        1 <= m <= gs.len(),
    ensures
        join(texts.take(m), "\n"@) == join(ls.subrange(0, gs[m - 1].1 + 1), "\n"@),
    decreases m,
{
    lemma_groups_cover(ls, 0);
    if m == 1 {
        assert(texts.take(1) =~= seq![texts[0]]);
    } else {
        lemma_groups_rejoin(ls, gs, texts, m - 1);
        assert(texts.take(m) =~= texts.take(m - 1).push(texts[m - 1]));
        lemma_join_push(texts.take(m - 1), "\n"@, texts[m - 1]);
        let g0 = groups_from(ls, 0);
        let c = m - 2;
        assert(0 <= c < g0.len() - 1);
        assert(g0[c].2);
        assert(g0[c + 1].0 == g0[c].1 + 1);
        assert(gs[m - 1].0 <= gs[m - 1].1);
        lemma_group_end_range(ls, 0, 0);
        lemma_groups_bounded(ls, 0);
        lemma_join_split(ls, 0, gs[m - 1].0, gs[m - 1].1 + 1);
    }
}

/// Every group lies within the lines.
proof fn lemma_groups_bounded(ls: Seq<Seq<char>>, from: int)
    requires
        0 <= from,
    ensures
        forall|c: int|
            0 <= c < groups_from(ls, from).len() ==> from <= (#[trigger] groups_from(ls, from)[c]).0 && groups_from(
                ls,
                from,
            )[c].1 < ls.len(),
    decreases ls.len() + 1 - from,
{
    if from < ls.len() {
        lemma_group_end_range(ls, from, 0);
        match group_end(ls, from, 0) {
            Some(e) => {
                lemma_groups_bounded(ls, e + 1);
                let gs = groups_from(ls, from);
                let rest = groups_from(ls, e + 1);
                assert forall|c: int| 0 <= c < gs.len() implies from <= (#[trigger] gs[c]).0 && gs[c].1 < ls.len() by {
                    if c > 0 {
                        assert(gs[c] == rest[c - 1]);
                    }
                }
            },
            None => {},
        }
    }
}

/// Law: the chunks of a symbol, joined with newlines, give back the lines
/// of its body joined with newlines; and every chunk but the last holds at
/// least `MAX_NWS_CHARS` non-whitespace characters.
pub proof fn law_chunks_rejoin(sym: Symbol, chunks: Seq<Chunk>)
    requires
        needs_chunking(sym),
        chunks.len() == body_groups(sym.body@).len(),
        forall|c: int|
            0 <= c < chunks.len() ==> is_chunk_of(
                #[trigger] chunks[c],
                sym,
                c,
                body_groups(sym.body@)[c],
            ),
    ensures
        join(Seq::new(chunks.len(), |c: int| chunks[c].content@), "\n"@) == join(lines(sym.body@), "\n"@),
        forall|c: int| 0 <= c < chunks.len() - 1 ==> #[trigger] chunks[c].nws_count >= MAX_NWS_CHARS,
{
    let ls = lines(sym.body@);
    let gs = body_groups(sym.body@);
    let texts = Seq::new(chunks.len(), |c: int| chunks[c].content@);
    lemma_groups_cover(ls, 0);
    lemma_groups_bounded(ls, 0);
    lemma_closed_groups(ls, 0);
    assert forall|c: int| 0 <= c < gs.len() implies #[trigger] texts[c] == join(ls.subrange(gs[c].0, gs[c].1 + 1), "\n"@) by {
        assert(is_chunk_of(chunks[c], sym, c, gs[c]));
    }
    lemma_groups_rejoin(ls, gs, texts, gs.len() as int);
    assert(texts.take(gs.len() as int) =~= texts);
    assert(ls.subrange(0, ls.len() as int) =~= ls);
    assert forall|c: int| 0 <= c < chunks.len() - 1 implies #[trigger] chunks[c].nws_count >= MAX_NWS_CHARS by {
        assert(is_chunk_of(chunks[c], sym, c, gs[c]));
        assert(gs[c].2);
        lemma_group_end_full(ls, gs[c].0, 0);
        lemma_count_join(ls, gs[c].0, gs[c].1 + 1);
    }
}

/// Every character of `s` is white space.
pub open spec fn all_white(s: Seq<char>) -> bool {
    forall|i: int| 0 <= i < s.len() ==> is_white_space(#[trigger] s[i])
}

proof fn lemma_trim_start_all_white(s: Seq<char>)
    requires
        all_white(s),
    ensures
        trim_start(s).len() == 0,
    decreases s.len(),
{
    if s.len() > 0 {
        assert(is_white_space(s[0]));
        assert(all_white(s.drop_first())) by {
            assert forall|i: int| 0 <= i < s.drop_first().len() implies is_white_space(#[trigger] s.drop_first()[i]) by {
                assert(s.drop_first()[i] == s[i + 1]);
            }
        }
        lemma_trim_start_all_white(s.drop_first());
    }
}

/// Leading white space is dropped only up to the first other character.
proof fn lemma_trim_start_keeps(s: Seq<char>, i: int)
    requires
        0 <= i < s.len(),
        !is_white_space(s[i]),
    ensures
        exists|d: int| 0 <= d <= i && trim_start(s) == s.subrange(d, s.len() as int),
    decreases s.len(),
{
    if is_white_space(s[0]) {
        assert(i > 0);
        assert(s.drop_first()[i - 1] == s[i]);
        lemma_trim_start_keeps(s.drop_first(), i - 1);
        let d = choose|d: int| 0 <= d <= i - 1 && trim_start(s.drop_first()) == s.drop_first().subrange(d, s.drop_first().len() as int);
        assert(s.drop_first().subrange(d, s.drop_first().len() as int) =~= s.subrange(d + 1, s.len() as int));
    } else {
        assert(s.subrange(0, s.len() as int) =~= s);
    }
}

proof fn lemma_trim_end_white_tail(u: Seq<char>, w: Seq<char>)
    requires
        all_white(w),
        u.len() > 0,
        !is_white_space(u.last()),
    ensures
        trim_end(u + w) == u,
    decreases w.len(),
{
    if w.len() == 0 {
        assert(u + w =~= u);
    } else {
        assert((u + w).last() == w[w.len() - 1]);
        assert((u + w).drop_last() =~= u + w.drop_last());
        assert(all_white(w.drop_last())) by {
            assert forall|i: int| 0 <= i < w.drop_last().len() implies is_white_space(#[trigger] w.drop_last()[i]) by {
                assert(w.drop_last()[i] == w[i]);
            }
        }
        lemma_trim_end_white_tail(u, w.drop_last());
    }
}

/// Law: a line of white space only, a line whose last character other
/// than white space is `;`, `{`, `}` or `:`, and a non-empty line indented
/// by neither four spaces nor a tab, may close a chunk.
pub proof fn law_boundary_lines(line: Seq<char>)
    ensures
        all_white(line) ==> is_boundary_line(line),
        line.len() > 0 && line[0] != '\t' && !(line.len() >= 4 && line[0] == ' ' && line[1] == ' ' && line[2] == ' '
            && line[3] == ' ') ==> is_boundary_line(line),
        forall|i: int|
            0 <= i < line.len() && all_white(line.subrange(i + 1, line.len() as int)) && (#[trigger] line[i] == ';'
                || line[i] == '{' || line[i] == '}' || line[i] == ':') ==> is_boundary_line(line),
{
    if all_white(line) {
        lemma_trim_start_all_white(line);
        assert(trim(line).len() == 0);
    }
    if line.len() > 0 && line[0] != '\t' && !(line.len() >= 4 && line[0] == ' ' && line[1] == ' ' && line[2] == ' '
        && line[3] == ' ') {
        reveal_strlit("    ");
        if starts_with(line, "    "@) {
            assert(line.subrange(0, 4)[0] == line[0]);
            assert(line.subrange(0, 4)[1] == line[1]);
            assert(line.subrange(0, 4)[2] == line[2]);
            assert(line.subrange(0, 4)[3] == line[3]);
        }
    }
    assert forall|i: int|
        0 <= i < line.len() && all_white(line.subrange(i + 1, line.len() as int)) && (#[trigger] line[i] == ';'
            || line[i] == '{' || line[i] == '}' || line[i] == ':') implies is_boundary_line(line) by {
        reveal_strlit(" ");
        assert(!is_white_space(line[i]));
        lemma_trim_start_keeps(line, i);
        let d = choose|d: int| 0 <= d <= i && trim_start(line) == line.subrange(d, line.len() as int);
        let u = line.subrange(d, i + 1);
        let w = line.subrange(i + 1, line.len() as int);
        assert(line.subrange(d, line.len() as int) =~= u + w);
        assert(u.last() == line[i]);
        lemma_trim_end_white_tail(u, w);
        assert(trim(line) == u);
    }
}

/// Law: once a group holds the maximum of non-whitespace characters, a line
/// of white space only, or one whose last character other than white space
/// is `:`, closes it there or earlier: a long body is cut at such lines.
pub proof fn law_split_at_blank_or_colon(ls: Seq<Seq<char>>, k: int, e: int, acc: nat)
    requires
        0 <= k <= e < ls.len(),
        acc + nws_of_lines(ls, k, e + 1) >= MAX_NWS_CHARS,
        all_white(ls[e]) || exists|i: int|
            0 <= i < ls[e].len() && all_white(ls[e].subrange(i + 1, ls[e].len() as int)) && #[trigger] ls[e][i] == ':',
    ensures
        group_end(ls, k, acc) matches Some(g) && k <= g <= e,
    decreases e - k,
{
    law_boundary_lines(ls[e]);
    let acc2 = acc + count_non_ws(ls[k]);
    if !(acc2 >= MAX_NWS_CHARS && is_boundary_line(ls[k])) {
        if k == e {
            assert(nws_of_lines(ls, k, e + 1) == count_non_ws(ls[k]) + nws_of_lines(ls, k + 1, e + 1));
            assert(nws_of_lines(ls, k + 1, e + 1) == 0);
        }
        law_split_at_blank_or_colon(ls, k + 1, e, acc2);
    }
}

// ── Executable ───────────────────────────────────────────────────────────

/// Count non-whitespace characters in a string.
pub fn count_nws(s: &str) -> (n: usize)
    ensures
        n == count_non_ws(s@),
{
    let v = to_chars(s);
    count_nws_chars(v.as_slice())
}

/// Estimate token count from character count.
pub fn estimate_tokens(char_count: usize) -> (t: usize)
    ensures
        t == tokens_for(char_count as nat),
{
    char_count / 4 + if char_count % 4 != 0 {
        1
    } else {
        0
    }
}

/// Whether a line may close a chunk.
pub fn is_boundary(line: &[char]) -> (b: bool)
    ensures
        b == is_boundary_line(line@),
{
    let (a, e) = trim_bounds(line);
    if a == e {
        return true;
    }
    let last = line[e - 1];
    if last == ';' || last == '{' || last == '}' || last == ':' {
        return true;
    }
    let four: [char; 4] = [' ', ' ', ' ', ' '];
    proof {
        reveal_strlit("    ");
        assert(four@ =~= "    "@);
    }
    line.len() > 0 && !has_prefix(line, four.as_slice()) && line[0] != '\t'
}

/// Identifier of chunk `index` of symbol `symbol_id`.
fn make_chunk_id(symbol_id: &str, index: usize) -> (id: String)
    ensures
        id@ == chunk_id_of(symbol_id@, index as nat),
{
    let mut text = String::new();
    push_str(&mut text, symbol_id);
    push_str(&mut text, ":chunk:");
    let digits = decimal_string(index);
    push_str(&mut text, digits.as_str());
    sha256_hex(text.as_str())
}

/// The chunk made of lines `first..=last` of `sym`.
fn make_chunk(
    sym: &Symbol,
    ls: &Vec<Vec<char>>,
    index: usize,
    first: usize,
    last: usize,
    line_end: usize,
) -> (ch: Chunk)
    requires
        first <= last < ls.len(),
        views(ls@) == lines(sym.body@),
        sym.line_start + last <= usize::MAX,
    ensures
        ch.chunk_index == index,
        ch.content@ == join(lines(sym.body@).subrange(first as int, last + 1), "\n"@),
        ch.line_start == sym.line_start + first,
        ch.line_end == line_end,
        ch.nws_count == count_non_ws(ch.content@),
        ch.token_count == tokens_for(utf8_len(ch.content@) as nat),
        ch.body_hash@ == sha256_hex_of(ch.content@),
        ch.body_hash@.len() == 64,
        ch.id@ == chunk_id_of(sym.id@, index as nat),
        ch.symbol_id@ == sym.id@,
        ch.scope_chain@.len() == sym.scope_chain@.len(),
        forall|k: int|
            0 <= k < sym.scope_chain@.len() ==> #[trigger] ch.scope_chain@[k]@
                == sym.scope_chain@[k]@,
{
    let nl: [char; 1] = ['\n'];
    proof {
        reveal_strlit("\n");
        assert(nl@ =~= "\n"@);
    }
    let content_chars = join_range(ls, first, last + 1, nl.as_slice());
    let nws_count = count_nws_chars(content_chars.as_slice());
    let content = from_chars(content_chars.as_slice());
    let token_count = estimate_tokens(content.as_str().len());
    let body_hash = sha256_hex(content.as_str());
    let id = make_chunk_id(sym.id.as_str(), index);
    Chunk {
        id,
        symbol_id: sym.id.clone(),
        chunk_index: index,
        content,
        line_start: sym.line_start + first,
        line_end,
        token_count,
        nws_count,
        body_hash,
        scope_chain: clone_strings(&sym.scope_chain),
    }
}

/// Generate chunks for a symbol if its body exceeds the NWS threshold.
/// Returns an empty vector if the symbol is small enough not to need
/// chunking, or if splitting would give a single chunk.
pub fn chunk_symbol(symbol: &Symbol) -> (chunks: Vec<Chunk>)
    requires
        symbol.line_start + lines(symbol.body@).len() <= usize::MAX,
    ensures
        !needs_chunking(*symbol) ==> chunks@.len() == 0,
        needs_chunking(*symbol) ==> {
            &&& chunks@.len() == body_groups(symbol.body@).len()
            &&& forall|c: int|
                0 <= c < chunks@.len() ==> is_chunk_of(
                    #[trigger] chunks@[c],
                    *symbol,
                    c,
                    body_groups(symbol.body@)[c],
                )
        },
{
    let body = to_chars(symbol.body.as_str());
    let body_nws = count_nws_chars(body.as_slice());
    if body_nws <= MAX_NWS_CHARS {
        return Vec::new();
    }
    let ls = split_lines(body.as_slice());
    let ghost gl = lines(symbol.body@);
    let ghost all = groups_from(gl, 0);
    if ls.len() == 0 {
        return Vec::new();
    }
    let mut chunks: Vec<Chunk> = Vec::new();
    // The pending group starts at `chunk_start`; `acc` is its count of
    // non-whitespace characters so far, capped at the maximum.
    let mut chunk_start: usize = 0;
    let mut acc: usize = 0;
    let mut i: usize = 0;
    let ghost mut acc_true: nat = 0;
    while i < ls.len()
        invariant
            views(ls@) == gl,
            gl == lines(symbol.body@),
            all == groups_from(gl, 0),
            symbol.line_start + gl.len() <= usize::MAX,
            chunk_start <= i <= ls.len(),
            acc <= MAX_NWS_CHARS,
            acc == if acc_true >= MAX_NWS_CHARS {
                MAX_NWS_CHARS as nat
            } else {
                acc_true
            },
            chunk_start < ls.len() ==> group_end(gl, chunk_start as int, 0) == group_end(
                gl,
                i as int,
                acc_true,
            ),
            chunk_start == i ==> acc_true == 0,
            all == all.subrange(0, chunks@.len() as int) + groups_from(gl, chunk_start as int),
            chunks@.len() <= all.len(),
            forall|c: int|
                0 <= c < chunks@.len() ==> is_chunk_of(#[trigger] chunks@[c], *symbol, c, all[c]),
        decreases ls.len() - i,
    {
        let line_nws = count_nws_chars(ls[i].as_slice());
        let ghost acc_next: nat = acc_true + line_nws as nat;
        let next = if line_nws >= MAX_NWS_CHARS || acc + line_nws >= MAX_NWS_CHARS {
            MAX_NWS_CHARS
        } else {
            acc + line_nws
        };
        let boundary = is_boundary(ls[i].as_slice());
        proof {
            lemma_group_end_cap(gl, i + 1, acc_next, next as nat);
        }
        if next >= MAX_NWS_CHARS && boundary {
            proof {
                assert(group_end(gl, i as int, acc_true) == Some(i as int));
                lemma_group_end_range(gl, chunk_start as int, 0);
                assert(groups_from(gl, chunk_start as int) == seq![
                    (chunk_start as int, i as int, true),
                ] + groups_from(gl, i + 1));
            }
            let ch = make_chunk(symbol, &ls, chunks.len(), chunk_start, i, symbol.line_start + i);
            proof {
                let c = chunks@.len() as int;
                assert(all[c] == (chunk_start as int, i as int, true));
            }
            let ghost old_chunks = chunks@;
            chunks.push(ch);
            proof {
                assert(all.subrange(0, chunks@.len() as int) =~= all.subrange(0, old_chunks.len() as int).push(
                    (chunk_start as int, i as int, true),
                ));
                assert(all =~= all.subrange(0, chunks@.len() as int) + groups_from(gl, i + 1));
                assert forall|c: int|
                    0 <= c < chunks@.len() implies is_chunk_of(
                    #[trigger] chunks@[c],
                    *symbol,
                    c,
                    all[c],
                ) by {
                    if c < old_chunks.len() {
                        assert(chunks@[c] == old_chunks[c]);
                    }
                }
                acc_true = 0;
            }
            acc = 0;
            chunk_start = i + 1;
        } else {
            proof {
                assert(group_end(gl, i as int, acc_true) == group_end(gl, i + 1, acc_next));
                acc_true = acc_next;
            }
            acc = next;
        }
        i = i + 1;
    }
    if chunk_start < ls.len() {
        proof {
            assert(group_end(gl, ls.len() as int, acc_true) == None::<int>);
            assert(groups_from(gl, chunk_start as int) == seq![
                (chunk_start as int, ls.len() - 1, false),
            ]);
        }
        let ch = make_chunk(symbol, &ls, chunks.len(), chunk_start, ls.len() - 1, symbol.line_end);
        let ghost old_chunks = chunks@;
        proof {
            assert(all[old_chunks.len() as int] == (chunk_start as int, ls.len() - 1, false));
        }
        chunks.push(ch);
        proof {
            assert(all.len() == chunks@.len());
            assert forall|c: int|
                0 <= c < chunks@.len() implies is_chunk_of(
                #[trigger] chunks@[c],
                *symbol,
                c,
                all[c],
            ) by {
                if c < old_chunks.len() {
                    assert(chunks@[c] == old_chunks[c]);
                }
            }
        }
    } else {
        proof {
            assert(groups_from(gl, chunk_start as int) =~= Seq::<(int, int, bool)>::empty());
            assert(all.len() == chunks@.len());
        }
    }
    if chunks.len() <= 1 {
        return Vec::new();
    }
    chunks
}

} // verus!

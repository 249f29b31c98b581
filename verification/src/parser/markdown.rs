//! Markdown/documentation parser.
//!
//! Extracts headings and sections from .md files as searchable symbols.
//! These are stored alongside code symbols so agents can search docs and code together.
use vstd::prelude::*;
use crate::hashing::{sha256_hex, sha256_hex_of};
use crate::parser::paths::{file_stem_of, file_stem_text};
use crate::parser::treesitter::{ParseResult, Symbol, SymbolKind};
use crate::text::{
    from_chars, join, join_range, lines, push_char, push_str, slice_chars, split_lines,
    to_chars, trim, trim_chars, views,
};

verus! {

/// Number of `'#'` characters that `s` starts with.
pub open spec fn leading_hashes(s: Seq<char>) -> nat
    decreases s.len(),
{
    if s.len() > 0 && s[0] == '#' {
        1 + leading_hashes(s.drop_first())
    } else {
        0
    }
}

/// An ATX heading (`#` to `######` followed by a non-empty title) in a
/// trimmed line: its level and its trimmed title.
pub open spec fn heading_of(line: Seq<char>) -> Option<(nat, Seq<char>)> {
    let level = leading_hashes(line);
    if level == 0 || level > 6 {
        None
    } else {
        let title = trim(line.subrange(level as int, line.len() as int));
        if title.len() == 0 {
            None
        } else {
            Some((level, title))
        }
    }
}

/// Line `k` of `ls` is a heading line.
pub open spec fn is_heading_line(ls: Seq<Seq<char>>, k: int) -> bool {
    heading_of(trim(ls[k])) is Some
}

proof fn lemma_leading_hashes(level: nat, rest: Seq<char>)
    requires
        rest.len() == 0 || rest[0] != '#',
    ensures
        leading_hashes(Seq::new(level, |i: int| '#') + rest) == level,
    decreases level,
{
    let s = Seq::new(level, |i: int| '#') + rest;
    if level == 0 {
        assert(s =~= rest);
    } else {
        assert(s[0] == '#');
        assert(s.drop_first() =~= Seq::new((level - 1) as nat, |i: int| '#') + rest);
        lemma_leading_hashes((level - 1) as nat, rest);
    }
}

/// Law: a line of one to six `#` followed by a title that is not empty once
/// trimmed (and does not start with `#`) is a heading of that level, with
/// that trimmed title; seven or more `#` make no heading.
pub proof fn law_heading_levels(level: nat, rest: Seq<char>)
    requires
        rest.len() == 0 || rest[0] != '#',
    ensures
        1 <= level <= 6 && trim(rest).len() > 0 ==> heading_of(Seq::new(level, |i: int| '#') + rest) == Some(
            (level, trim(rest)),
        ),
        level > 6 ==> heading_of(Seq::new(level, |i: int| '#') + rest) is None,
{
    lemma_leading_hashes(level, rest);
    let s = Seq::new(level, |i: int| '#') + rest;
    assert(s.subrange(level as int, s.len() as int) =~= rest);
}

/// Indices of the heading lines among the first `n` lines, in order.
pub open spec fn headings_upto(ls: Seq<Seq<char>>, n: int) -> Seq<int>
    decreases n,
{
    if n <= 0 {
        seq![]
    } else if is_heading_line(ls, n - 1) {
        headings_upto(ls, n - 1).push(n - 1)
    } else {
        headings_upto(ls, n - 1)
    }
}

/// Indices of all heading lines of `ls`.
pub open spec fn headings(ls: Seq<Seq<char>>) -> Seq<int> {
    headings_upto(ls, ls.len() as int)
}

/// The first 500 characters of a text.
pub open spec fn doc_excerpt(body: Seq<char>) -> Seq<char> {
    if body.len() <= 500 {
        body
    } else {
        body.subrange(0, 500)
    }
}

/// `sym` is the documentation section `name` of `file`, covering lines
/// `line_start..=line_end` with text `body`.
pub open spec fn is_doc_symbol(
    sym: Symbol,
    name: Seq<char>,
    file: Seq<char>,
    line_start: int,
    line_end: int,
    body: Seq<char>,
) -> bool {
    let body_hash = sha256_hex_of(body);
    &&& sym.id@ == sha256_hex_of(file + ":"@ + name + ":doc"@)
    &&& sym.canonical_id@ == sha256_hex_of(name + ":doc:"@ + body_hash)
    &&& sym.name@ == name
    &&& sym.kind == SymbolKind::Module
    &&& sym.file@ == file
    &&& sym.line_start == line_start
    &&& sym.line_end == line_end
    &&& sym.signature@ == "# "@ + name
    &&& sym.docstring matches Some(d) && d@ == doc_excerpt(body)
    &&& sym.body@ == body
    &&& sym.body_hash@ == body_hash
    &&& sym.full_hash@ == sha256_hex_of(name + ":"@ + body)
    &&& sym.language@ == "markdown"@
    &&& sym.scope_chain@.len() == 1 && sym.scope_chain@[0]@ == name
    &&& sym.parent_id is None
}

/// `sym` is the section of the heading that stands at line `headings(ls)[k]`.
pub open spec fn is_section(sym: Symbol, ls: Seq<Seq<char>>, file: Seq<char>, k: int) -> bool {
    let hs = headings(ls);
    let start = hs[k];
    let end = if k + 1 < hs.len() {
        hs[k + 1]
    } else {
        ls.len() as int
    };
    is_doc_symbol(
        sym,
        heading_of(trim(ls[start])).unwrap().1,
        file,
        start + 1,
        end,
        join(ls.subrange(start, end), "\n"@),
    )
}

/// `r` is what `parse_markdown(content, file)` returns: one section per
/// heading line, running to the next heading; with no heading, the whole
/// non-blank text as one section named after the file's stem.
pub open spec fn is_markdown_result(r: ParseResult, content: Seq<char>, file: Seq<char>) -> bool {
    let ls = lines(content);
    let hs = headings(ls);
    &&& r.edges@.len() == 0
    &&& r.language@ == "markdown"@
    &&& if hs.len() > 0 {
        &&& r.symbols@.len() == hs.len()
        &&& forall|k: int| 0 <= k < hs.len() ==> is_section(#[trigger] r.symbols@[k], ls, file, k)
    } else if trim(content).len() == 0 {
        r.symbols@.len() == 0
    } else {
        &&& r.symbols@.len() == 1
        &&& is_doc_symbol(
            r.symbols@[0],
            match file_stem_of(file) {
                Some(s) => s,
                None => "document"@,
            },
            file,
            1,
            ls.len() as int,
            content,
        )
    }
}

// ── Lemmas ───────────────────────────────────────────────────────────────

proof fn lemma_headings_upto(ls: Seq<Seq<char>>, n: int)
    requires
        0 <= n <= ls.len(),
    ensures
        forall|k: int|
            0 <= k < headings_upto(ls, n).len() ==> 0 <= #[trigger] headings_upto(ls, n)[k] < n
                && is_heading_line(ls, headings_upto(ls, n)[k]),
        forall|a: int, b: int|
            0 <= a < b < headings_upto(ls, n).len() ==> #[trigger] headings_upto(ls, n)[a]
                < #[trigger] headings_upto(ls, n)[b],
        forall|j: int|
            0 <= j < n && is_heading_line(ls, j) ==> headings_upto(ls, n).contains(j),
    decreases n,
{
    if n > 0 {
        lemma_headings_upto(ls, n - 1);
        let prev = headings_upto(ls, n - 1);
        if is_heading_line(ls, n - 1) {
            let cur = prev.push(n - 1);
            assert forall|j: int| 0 <= j < n && is_heading_line(ls, j) implies cur.contains(j) by {
                if j < n - 1 {
                    let w = choose|w: int| 0 <= w < prev.len() && prev[w] == j;
                    assert(cur[w] == j);
                } else {
                    assert(cur[prev.len() as int] == j);
                }
            }
        }
    }
}

/// Law: the sections of a markdown text follow one another without gap or
/// overlap: each starts on the line after the previous one ends, and the
/// last one runs to the end of the text.
pub proof fn law_sections_contiguous(r: ParseResult, content: Seq<char>, file: Seq<char>)
    requires
        is_markdown_result(r, content, file),
        headings(lines(content)).len() > 0,
    ensures
        forall|k: int|
            0 <= k < r.symbols@.len() - 1 ==> #[trigger] r.symbols@[k + 1].line_start
                == r.symbols@[k].line_end + 1,
        r.symbols@.last().line_end == lines(content).len(),
{
    let ls = lines(content);
    let hs = headings(ls);
    assert forall|k: int| 0 <= k < r.symbols@.len() - 1 implies #[trigger] r.symbols@[k
        + 1].line_start == r.symbols@[k].line_end + 1 by {
        assert(is_section(r.symbols@[k], ls, file, k));
        assert(is_section(r.symbols@[k + 1], ls, file, k + 1));
    }
    assert(is_section(r.symbols@[hs.len() - 1], ls, file, hs.len() - 1));
}

// ── Executable ───────────────────────────────────────────────────────────

/// Parse an ATX heading in a trimmed line: returns (level, title) or None.
pub fn parse_heading(line: &[char]) -> (r: Option<(usize, Vec<char>)>)
    ensures
        match r {
            Some((level, title)) => heading_of(line@) == Some((level as nat, title@)),
            None => heading_of(line@) is None,
        },
{
    let mut level: usize = 0;
    assert(line@.subrange(0, line.len() as int) =~= line@);
    while level < line.len() && line[level] == '#'
        invariant
            level <= line.len(),
            leading_hashes(line@) == level + leading_hashes(
                line@.subrange(level as int, line.len() as int),
            ),
        decreases line.len() - level,
    {
        assert(line@.subrange(level as int, line.len() as int).drop_first() =~= line@.subrange(
            level + 1,
            line.len() as int,
        ));
        level = level + 1;
    }
    proof {
        assert(line@.subrange(0, line.len() as int) =~= line@);
        if level < line.len() {
            assert(line@.subrange(level as int, line.len() as int)[0] == line@[level as int]);
        }
        assert(leading_hashes(line@.subrange(level as int, line.len() as int)) == 0);
    }
    if level > 6 || level == 0 {
        return None;
    }
    let rest = slice_chars(line, level, line.len());
    let title = trim_chars(rest.as_slice());
    if title.len() == 0 {
        return None;
    }
    Some((level, title))
}

/// The section symbol `name` of `file`.
fn make_doc_symbol(
    name: &str,
    file: &str,
    line_start: usize,
    line_end: usize,
    body: &str,
) -> (sym: Symbol)
    ensures
        is_doc_symbol(sym, name@, file@, line_start as int, line_end as int, body@),
{
    let body_hash = sha256_hex(body);

    let mut full_text = String::new();
    push_str(&mut full_text, name);
    push_char(&mut full_text, ':');
    push_str(&mut full_text, body);
    let full_hash = sha256_hex(full_text.as_str());

    let mut id_text = String::new();
    push_str(&mut id_text, file);
    push_char(&mut id_text, ':');
    push_str(&mut id_text, name);
    push_str(&mut id_text, ":doc");
    let id = sha256_hex(id_text.as_str());

    let mut canonical_text = String::new();
    push_str(&mut canonical_text, name);
    push_str(&mut canonical_text, ":doc:");
    push_str(&mut canonical_text, body_hash.as_str());
    let canonical_id = sha256_hex(canonical_text.as_str());

    let mut signature = String::new();
    push_str(&mut signature, "# ");
    push_str(&mut signature, name);

    let body_chars = to_chars(body);
    let excerpt_len = if body_chars.len() <= 500 {
        body_chars.len()
    } else {
        500
    };
    let excerpt = slice_chars(body_chars.as_slice(), 0, excerpt_len);
    let docstring = from_chars(excerpt.as_slice());

    let mut scope_chain: Vec<String> = Vec::new();
    scope_chain.push(name.to_string());
    proof {
        reveal_strlit(":");
        reveal_strlit(":doc");
        reveal_strlit(":doc:");
        reveal_strlit("# ");
        reveal_strlit("markdown");
        assert(full_text@ =~= name@ + ":"@ + body@);
        assert(id_text@ =~= file@ + ":"@ + name@ + ":doc"@);
        assert(canonical_text@ =~= name@ + ":doc:"@ + body_hash@);
        assert(signature@ =~= "# "@ + name@);
        if body_chars.len() <= 500 {
            assert(excerpt@ =~= body@);
        }
    }
    Symbol {
        id,
        canonical_id,
        name: name.to_string(),
        kind: SymbolKind::Module,
        file: file.to_string(),
        line_start,
        line_end,
        signature,
        docstring: Some(docstring),
        body: body.to_string(),
        body_hash,
        full_hash,
        language: "markdown".to_string(),
        scope_chain,
        parent_id: None,
    }
}

/// Parse a markdown file into sections (headings become symbols).
pub fn parse_markdown(content: &str, file_path: &str) -> (r: ParseResult)
    ensures
        is_markdown_result(r, content@, file_path@),
{
    let chars = to_chars(content);
    let ls = split_lines(chars.as_slice());
    let ghost gl = lines(content@);
    let nl: [char; 1] = ['\n'];
    proof {
        reveal_strlit("\n");
        assert(nl@ =~= "\n"@);
    }
    let mut symbols: Vec<Symbol> = Vec::new();
    // The heading being read: its title and the index of its line.
    let mut current: Option<(Vec<char>, usize)> = None;
    let mut i: usize = 0;
    while i < ls.len()
        invariant
            views(ls@) == gl,
            gl == lines(content@),
            nl@ == "\n"@,
            i <= ls.len(),
            match current {
                Some((title, start)) => {
                    &&& headings_upto(gl, i as int).len() == symbols@.len() + 1
                    &&& headings_upto(gl, i as int).last() == start
                    &&& start < i
                    &&& heading_of(trim(gl[start as int])).unwrap().1 == title@
                },
                None => headings_upto(gl, i as int).len() == 0 && symbols@.len() == 0,
            },
            forall|k: int|
                0 <= k < symbols@.len() ==> {
                    let hs = headings_upto(gl, i as int);
                    is_doc_symbol(
                        #[trigger] symbols@[k],
                        heading_of(trim(gl[hs[k]])).unwrap().1,
                        file_path@,
                        hs[k] + 1,
                        hs[k + 1],
                        join(gl.subrange(hs[k], hs[k + 1]), "\n"@),
                    )
                },
        decreases ls.len() - i,
    {
        let trimmed = trim_chars(ls[i].as_slice());
        let heading = parse_heading(trimmed.as_slice());
        proof {
            assert(trimmed@ == trim(gl[i as int]));
            lemma_headings_upto(gl, i + 1);
        }
        match heading {
            Some((_level, title)) => {
                let ghost old_symbols = symbols@;
                let ghost hs_old = headings_upto(gl, i as int);
                let ghost hs_new = headings_upto(gl, i + 1);
                assert(hs_new == hs_old.push(i as int));
                match current {
                    Some((name, start)) => {
                        let body_chars = join_range(&ls, start, i, nl.as_slice());
                        let body = from_chars(body_chars.as_slice());
                        let name_str = from_chars(name.as_slice());
                        let sym = make_doc_symbol(name_str.as_str(), file_path, start + 1, i, body.as_str());
                        symbols.push(sym);
                        proof {
                            assert forall|k: int| 0 <= k < symbols@.len() implies {
                                is_doc_symbol(
                                    #[trigger] symbols@[k],
                                    heading_of(trim(gl[hs_new[k]])).unwrap().1,
                                    file_path@,
                                    hs_new[k] + 1,
                                    hs_new[k + 1],
                                    join(gl.subrange(hs_new[k], hs_new[k + 1]), "\n"@),
                                )
                            } by {
                                if k < old_symbols.len() {
                                    assert(symbols@[k] == old_symbols[k]);
                                    assert(hs_new[k] == hs_old[k]);
                                    assert(hs_new[k + 1] == hs_old[k + 1]);
                                } else {
                                    assert(hs_new[k] == start);
                                    assert(hs_new[k + 1] == i);
                                }
                            }
                        }
                    },
                    None => {},
                }
                current = Some((title, i));
            },
            None => {
                proof {
                    assert(headings_upto(gl, i + 1) == headings_upto(gl, i as int));
                }
            },
        }
        i = i + 1;
    }
    let ghost hs = headings(gl);
    match current {
        Some((name, start)) => {
            let body_chars = join_range(&ls, start, ls.len(), nl.as_slice());
            let body = from_chars(body_chars.as_slice());
            let name_str = from_chars(name.as_slice());
            let sym = make_doc_symbol(name_str.as_str(), file_path, start + 1, ls.len(), body.as_str());
            let ghost old_symbols = symbols@;
            symbols.push(sym);
            proof {
                lemma_headings_upto(gl, gl.len() as int);
                assert forall|k: int| 0 <= k < hs.len() implies is_section(
                    #[trigger] symbols@[k],
                    gl,
                    file_path@,
                    k,
                ) by {
                    if k < old_symbols.len() {
                        assert(symbols@[k] == old_symbols[k]);
                    }
                }
            }
        },
        None => {
            let content_chars = chars.as_slice();
            let trimmed = trim_chars(content_chars);
            if trimmed.len() > 0 {
                let name = match file_stem_text(file_path) {
                    Some(stem) => stem,
                    None => "document".to_string(),
                };
                let sym = make_doc_symbol(name.as_str(), file_path, 1, ls.len(), content);
                symbols.push(sym);
            }
        },
    }
    ParseResult { symbols, edges: Vec::new(), language: "markdown".to_string() }
}

} // verus!

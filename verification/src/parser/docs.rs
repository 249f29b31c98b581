//! Documentation comments and docstrings of definitions.
use vstd::prelude::*;
use crate::parser::extract::{node_text, text_in, text_slice};
use crate::parser::languages::same_text;
use crate::parser::syntax::{Capture, Sibling, SyntaxNode};
use crate::text::{
    has_prefix, join, join_chars, lines, split_lines, starts_with, strip_prefixes, strip_suffixes,
    to_chars, trim, trim_chars, trim_end_matches, trim_start_matches, views,
};

verus! {

// ── Line comments (Rust `///` and `//!`, Go `//`) ─────────────────────────

/// A comment kind that can carry documentation in the given style.
pub open spec fn is_doc_comment_kind(kind: Seq<char>, rust: bool) -> bool {
    if rust {
        kind == "line_comment"@ || kind == "block_comment"@
    } else {
        kind == "comment"@
    }
}

/// The documentation line a comment holds, if it is a documentation
/// comment: its markers stripped and surrounding white space trimmed.
pub open spec fn doc_comment_line(text: Seq<char>, rust: bool) -> Option<Seq<char>> {
    if rust {
        if starts_with(text, "///"@) || starts_with(text, "//!"@) {
            Some(trim(strip_prefixes(strip_prefixes(text, "///"@), "//!"@)))
        } else {
            None
        }
    } else if starts_with(text, "//"@) {
        Some(trim(strip_prefixes(text, "//"@)))
    } else {
        None
    }
}

/// The text of a sibling: bytes `start_byte..end_byte` of the source.
pub open spec fn sibling_text(source: Seq<char>, s: Sibling) -> Option<Seq<char>> {
    text_in(source, s.start_byte as int, s.end_byte as int)
}

/// Documentation lines of the comments that precede a definition, from
/// `prec[i]` on (`prec` nearest first), farthest first in the result. The
/// run ends at the first node that is not a documentation comment; a
/// comment whose text cannot be read makes the whole result `None`.
pub open spec fn doc_lines_from(source: Seq<char>, prec: Seq<Sibling>, i: int, rust: bool) -> Option<
    Seq<Seq<char>>,
>
    decreases prec.len() - i,
{
    if i < 0 || i >= prec.len() {
        Some(seq![])
    } else if !is_doc_comment_kind(prec[i].kind@, rust) {
        Some(seq![])
    } else {
        match sibling_text(source, prec[i]) {
            None => None,
            Some(t) => match doc_comment_line(t, rust) {
                None => Some(seq![]),
                Some(l) => match doc_lines_from(source, prec, i + 1, rust) {
                    None => None,
                    Some(rest) => Some(rest.push(l)),
                },
            },
        }
    }
}

/// The documentation joined by line breaks, or `None` when there is none.
pub open spec fn comment_doc(source: Seq<char>, prec: Seq<Sibling>, rust: bool) -> Option<Seq<char>> {
    match doc_lines_from(source, prec, 0, rust) {
        None => None,
        Some(ls) => if ls.len() == 0 {
            None
        } else {
            Some(join(ls, "\n"@))
        },
    }
}

// ── JSDoc (`/** ... */`) ──────────────────────────────────────────────────

/// One line of a JSDoc block: trimmed, leading stars removed, trimmed again.
pub open spec fn jsdoc_line(l: Seq<char>) -> Seq<char> {
    trim(strip_prefixes(trim(l), seq!['*']))
}

/// The text of a JSDoc comment without its delimiters and line stars.
pub open spec fn jsdoc_body(text: Seq<char>) -> Seq<char> {
    let inner = strip_suffixes(strip_prefixes(text, "/**"@), "*/"@);
    trim(join(lines(inner).map_values(|l: Seq<char>| jsdoc_line(l)), "\n"@))
}

/// The JSDoc of a definition: its previous sibling, when that is a comment
/// starting with `/**`.
pub open spec fn jsdoc_of(source: Seq<char>, prec: Seq<Sibling>) -> Option<Seq<char>> {
    if prec.len() > 0 && prec[0].kind@ == "comment"@ {
        match sibling_text(source, prec[0]) {
            None => None,
            Some(t) => if starts_with(t, "/**"@) {
                Some(jsdoc_body(t))
            } else {
                None
            },
        }
    } else {
        None
    }
}

// ── Python docstrings ─────────────────────────────────────────────────────

/// Index of the first child from `k` on that fills field `f`.
pub open spec fn field_child_from(cs: Seq<SyntaxNode>, f: Seq<char>, k: int) -> Option<int>
    decreases cs.len() - k,
{
    if k < 0 || k >= cs.len() {
        None
    } else if cs[k].field matches Some(g) && g@ == f {
        Some(k)
    } else {
        field_child_from(cs, f, k + 1)
    }
}

/// `Node::child_by_field_name`: the first child that fills field `f`.
pub open spec fn field_child(n: SyntaxNode, f: Seq<char>) -> Option<SyntaxNode> {
    match field_child_from(n.children@, f, 0) {
        Some(k) => Some(n.children@[k]),
        None => None,
    }
}

/// A docstring literal without its triple quotes, trimmed.
pub open spec fn unquote_docstring(text: Seq<char>) -> Seq<char> {
    trim(
        strip_suffixes(
            strip_suffixes(strip_prefixes(strip_prefixes(text, "\"\"\""@), "'''"@), "\"\"\""@),
            "'''"@,
        ),
    )
}

/// The docstring of a Python definition: the string that is the first
/// statement of its body.
pub open spec fn python_doc_of(source: Seq<char>, def: SyntaxNode) -> Option<Seq<char>> {
    match field_child(def, "body"@) {
        None => None,
        Some(body) => if body.children@.len() > 0 && body.children@[0].kind@
            == "expression_statement"@ && body.children@[0].children@.len() > 0 {
            let e = body.children@[0].children@[0];
            if e.kind@ == "string"@ || e.kind@ == "concatenated_string"@ {
                match node_text(source, e) {
                    None => None,
                    Some(t) => Some(unquote_docstring(t)),
                }
            } else {
                None
            }
        } else {
            None
        },
    }
}

/// The documentation of the definition captured by `def`, by language.
pub open spec fn docstring_of(source: Seq<char>, language: Seq<char>, def: Capture) -> Option<
    Seq<char>,
> {
    if language == "rust"@ {
        comment_doc(source, def.preceding@, true)
    } else if language == "python"@ {
        python_doc_of(source, def.node)
    } else if language == "typescript"@ || language == "javascript"@ {
        jsdoc_of(source, def.preceding@)
    } else if language == "go"@ {
        comment_doc(source, def.preceding@, false)
    } else {
        None
    }
}

// ── Executable ────────────────────────────────────────────────────────────

/// The characters of the text a node spans.
pub fn node_chars(source: &str, n: &SyntaxNode) -> (r: Option<Vec<char>>)
    ensures
        match r {
            Some(t) => node_text(source@, *n) == Some(t@),
            None => node_text(source@, *n) is None,
        },
{
    match text_slice(source, n.start_byte, n.end_byte) {
        Some(t) => Some(to_chars(t.as_str())),
        None => None,
    }
}

fn sibling_chars(source: &str, s: &Sibling) -> (r: Option<Vec<char>>)
    ensures
        match r {
            Some(t) => sibling_text(source@, *s) == Some(t@),
            None => sibling_text(source@, *s) is None,
        },
{
    match text_slice(source, s.start_byte, s.end_byte) {
        Some(t) => Some(to_chars(t.as_str())),
        None => None,
    }
}

fn is_doc_comment_kind_exec(kind: &str, rust: bool) -> (b: bool)
    ensures
        b == is_doc_comment_kind(kind@, rust),
{
    if rust {
        same_text(kind, "line_comment") || same_text(kind, "block_comment")
    } else {
        same_text(kind, "comment")
    }
}

fn doc_comment_line_exec(text: &[char], rust: bool) -> (r: Option<Vec<char>>)
    ensures
        match r {
            Some(l) => doc_comment_line(text@, rust) == Some(l@),
            None => doc_comment_line(text@, rust) is None,
        },
{
    let slashes3 = to_chars("///");
    let bang = to_chars("//!");
    let slashes2 = to_chars("//");
    proof {
        reveal_strlit("///");
        reveal_strlit("//!");
        reveal_strlit("//");
    }
    if rust {
        if has_prefix(text, slashes3.as_slice()) || has_prefix(text, bang.as_slice()) {
            let a = trim_start_matches(text, slashes3.as_slice());
            let b = trim_start_matches(a.as_slice(), bang.as_slice());
            Some(trim_chars(b.as_slice()))
        } else {
            None
        }
    } else if has_prefix(text, slashes2.as_slice()) {
        let a = trim_start_matches(text, slashes2.as_slice());
        Some(trim_chars(a.as_slice()))
    } else {
        None
    }
}

fn doc_lines_exec(source: &str, prec: &Vec<Sibling>, i: usize, rust: bool) -> (r: Option<
    Vec<Vec<char>>,
>)
    requires
        i <= prec.len(),
    ensures
        match r {
            Some(v) => doc_lines_from(source@, prec@, i as int, rust) == Some(views(v@)),
            None => doc_lines_from(source@, prec@, i as int, rust) is None,
        },
    decreases prec.len() - i,
{
    if i >= prec.len() {
        let v: Vec<Vec<char>> = Vec::new();
        assert(views(v@) =~= seq![]);
        return Some(v);
    }
    if !is_doc_comment_kind_exec(prec[i].kind.as_str(), rust) {
        let v: Vec<Vec<char>> = Vec::new();
        assert(views(v@) =~= seq![]);
        return Some(v);
    }
    let t = sibling_chars(source, &prec[i])?;
    match doc_comment_line_exec(t.as_slice(), rust) {
        None => {
            let v: Vec<Vec<char>> = Vec::new();
            assert(views(v@) =~= seq![]);
            Some(v)
        },
        Some(l) => {
            let mut rest = doc_lines_exec(source, prec, i + 1, rust)?;
            let ghost before = views(rest@);
            rest.push(l);
            assert(views(rest@) =~= before.push(l@));
            Some(rest)
        },
    }
}

fn comment_doc_exec(source: &str, prec: &Vec<Sibling>, rust: bool) -> (r: Option<Vec<char>>)
    ensures
        match r {
            Some(d) => comment_doc(source@, prec@, rust) == Some(d@),
            None => comment_doc(source@, prec@, rust) is None,
        },
{
    let ls = doc_lines_exec(source, prec, 0, rust)?;
    if ls.len() == 0 {
        return None;
    }
    let nl = to_chars("\n");
    proof {
        reveal_strlit("\n");
    }
    Some(join_chars(&ls, nl.as_slice()))
}

fn jsdoc_body_exec(text: &[char]) -> (r: Vec<char>)
    ensures
        r@ == jsdoc_body(text@),
{
    let open = to_chars("/**");
    let close = to_chars("*/");
    let nl = to_chars("\n");
    let star: [char; 1] = ['*'];
    proof {
        reveal_strlit("/**");
        reveal_strlit("*/");
        reveal_strlit("\n");
        assert(star@ =~= seq!['*']);
    }
    let a = trim_start_matches(text, open.as_slice());
    let inner = trim_end_matches(a.as_slice(), close.as_slice());
    let ls = split_lines(inner.as_slice());
    let ghost want = lines(inner@).map_values(|l: Seq<char>| jsdoc_line(l));
    let mut out: Vec<Vec<char>> = Vec::new();
    let mut i: usize = 0;
    while i < ls.len()
        invariant
            i <= ls.len(),
            views(ls@) == lines(inner@),
            star@ == seq!['*'],
            want == lines(inner@).map_values(|l: Seq<char>| jsdoc_line(l)),
            views(out@) == want.subrange(0, i as int),
        decreases ls.len() - i,
    {
        let t1 = trim_chars(ls[i].as_slice());
        let t2 = trim_start_matches(t1.as_slice(), star.as_slice());
        let t3 = trim_chars(t2.as_slice());
        proof {
            assert(ls@[i as int]@ == views(ls@)[i as int]);
        }
        let ghost before = views(out@);
        out.push(t3);
        assert(views(out@) =~= want.subrange(0, i + 1)) by {
            assert(views(out@) =~= before.push(t3@));
        }
        i = i + 1;
    }
    assert(want.subrange(0, ls.len() as int) =~= want);
    let joined = join_chars(&out, nl.as_slice());
    trim_chars(joined.as_slice())
}

fn jsdoc_exec(source: &str, prec: &Vec<Sibling>) -> (r: Option<Vec<char>>)
    ensures
        match r {
            Some(d) => jsdoc_of(source@, prec@) == Some(d@),
            None => jsdoc_of(source@, prec@) is None,
        },
{
    if prec.len() == 0 || !same_text(prec[0].kind.as_str(), "comment") {
        return None;
    }
    let t = sibling_chars(source, &prec[0])?;
    let open = to_chars("/**");
    proof {
        reveal_strlit("/**");
    }
    if has_prefix(t.as_slice(), open.as_slice()) {
        Some(jsdoc_body_exec(t.as_slice()))
    } else {
        None
    }
}

/// Index of the first child from `k` on that fills field `f`.
pub fn field_child_index(n: &SyntaxNode, f: &str) -> (r: Option<usize>)
    ensures
        match r {
            Some(k) => field_child_from(n.children@, f@, 0) == Some(k as int) && k
                < n.children.len(),
            None => field_child_from(n.children@, f@, 0) is None,
        },
{
    let mut k: usize = 0;
    while k < n.children.len()
        invariant
            k <= n.children.len(),
            field_child_from(n.children@, f@, 0) == field_child_from(n.children@, f@, k as int),
        decreases n.children.len() - k,
    {
        match &n.children[k].field {
            Some(g) => {
                if same_text(g.as_str(), f) {
                    return Some(k);
                }
            },
            None => {},
        }
        k = k + 1;
    }
    None
}

fn python_doc_exec(source: &str, def: &SyntaxNode) -> (r: Option<Vec<char>>)
    ensures
        match r {
            Some(d) => python_doc_of(source@, *def) == Some(d@),
            None => python_doc_of(source@, *def) is None,
        },
{
    proof {
        reveal_strlit("body");
    }
    let k = field_child_index(def, "body")?;
    let body = &def.children[k];
    if body.children.len() == 0 || !same_text(body.children[0].kind.as_str(), "expression_statement") {
        return None;
    }
    let st = &body.children[0];
    if st.children.len() == 0 {
        return None;
    }
    let e = &st.children[0];
    if !(same_text(e.kind.as_str(), "string") || same_text(e.kind.as_str(), "concatenated_string")) {
        return None;
    }
    let t = node_chars(source, e)?;
    let q3 = to_chars("\"\"\"");
    let s3 = to_chars("'''");
    proof {
        reveal_strlit("\"\"\"");
        reveal_strlit("'''");
    }
    let a = trim_start_matches(t.as_slice(), q3.as_slice());
    let b = trim_start_matches(a.as_slice(), s3.as_slice());
    let c = trim_end_matches(b.as_slice(), q3.as_slice());
    let d = trim_end_matches(c.as_slice(), s3.as_slice());
    Some(trim_chars(d.as_slice()))
}

/// The documentation of the definition captured by `def` in a file of the
/// given language.
pub fn extract_docstring(source: &str, language: &str, def: &Capture) -> (r: Option<Vec<char>>)
    ensures
        match r {
            Some(d) => docstring_of(source@, language@, *def) == Some(d@),
            None => docstring_of(source@, language@, *def) is None,
        },
{
    if same_text(language, "rust") {
        comment_doc_exec(source, &def.preceding, true)
    } else if same_text(language, "python") {
        python_doc_exec(source, &def.node)
    } else if same_text(language, "typescript") || same_text(language, "javascript") {
        jsdoc_exec(source, &def.preceding)
    } else if same_text(language, "go") {
        comment_doc_exec(source, &def.preceding, false)
    } else {
        None
    }
}

} // verus!

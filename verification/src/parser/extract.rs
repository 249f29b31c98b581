//! Symbols and edges read from syntax trees and query matches.
use vstd::prelude::*;
use vstd::string::StringSliceAdditionalSpecFns;
use vstd::utf8::{decode_utf8, encode_utf8, is_char_boundary};
use crate::hashing::{sha256_hex, sha256_hex_of};
use crate::parser::docs::{docstring_of, extract_docstring, node_chars};
use crate::parser::syntax::{Capture, SyntaxNode};
use crate::parser::treesitter::{
    canonical_id_of, full_hash_of, make_canonical_id, make_full_hash, make_symbol_id, opt_view,
    symbol_id_of, Symbol, SymbolKind,
};
use crate::parser::languages::same_text;
use crate::text::{
    contains, ends_with, find_chars, from_chars, has_suffix, lines, slice_chars, split_lines,
    starts_with, to_chars, trim_bounds, trim_end,
};

verus! {

/// The text of bytes `start..end` of `source`, when both ends fall on
/// character boundaries (`Node::utf8_text`).
pub open spec fn text_in(source: Seq<char>, start: int, end: int) -> Option<Seq<char>> {
    let b = encode_utf8(source);
    if 0 <= start <= end <= b.len() && is_char_boundary(b, start) && is_char_boundary(b, end) {
        Some(decode_utf8(b.subrange(start, end)))
    } else {
        None
    }
}

/// The text that a node spans.
pub open spec fn node_text(source: Seq<char>, n: SyntaxNode) -> Option<Seq<char>> {
    text_in(source, n.start_byte as int, n.end_byte as int)
}

/// The text of bytes `start..end` of `source`.
pub fn text_slice(source: &str, start: usize, end: usize) -> (r: Option<String>)
    ensures
        match r {
            Some(t) => text_in(source@, start as int, end as int) == Some(t@),
            None => text_in(source@, start as int, end as int) is None,
        },
{
    let ghost b = encode_utf8(source@);
    proof {
        vstd::utf8::encode_utf8_valid_utf8(source@);
        vstd::utf8::is_char_boundary_start_end_of_seq(b);
    }
    if start > end {
        return None;
    }
    if !source.is_char_boundary(start) || !source.is_char_boundary(end) {
        return None;
    }
    let (_, tail) = source.split_at(start);
    let k = end - start;
    proof {
        let t = b.subrange(start as int, b.len() as int);
        vstd::utf8::valid_utf8_split(b, start as int);
        assert(tail.spec_bytes() =~= t);
        vstd::utf8::is_char_boundary_start_end_of_seq(t);
        if k > 0 && (end as int) < b.len() {
            vstd::utf8::is_char_boundary_iff_not_is_continuation_byte(b, end as int);
            vstd::utf8::is_char_boundary_iff_not_is_continuation_byte(t, k as int);
            assert(t[k as int] == b[end as int]);
        }
        if end as int == b.len() {
            assert(t.len() == k);
        }
        assert(is_char_boundary(t, k as int));
    }
    let (mid, _) = tail.split_at(k);
    proof {
        assert(mid.spec_bytes() =~= b.subrange(start as int, end as int));
        vstd::utf8::encode_utf8_decode_utf8(mid@);
    }
    Some(mid.to_owned())
}

// ── Captures ─────────────────────────────────────────────────────────────

/// A capture name that marks the whole definition.
pub open spec fn is_def_name(name: Seq<char>) -> bool {
    ends_with(name, ".def"@)
}

/// The first capture from index `k` on whose name is `x`.
pub open spec fn first_named(caps: Seq<Capture>, x: Seq<char>, k: int) -> Option<int>
    decreases caps.len() - k,
{
    if k < 0 || k >= caps.len() {
        None
    } else if caps[k].name@ == x {
        Some(k)
    } else {
        first_named(caps, x, k + 1)
    }
}

/// The first capture from index `k` on whose name ends in `.def`.
pub open spec fn first_def(caps: Seq<Capture>, k: int) -> Option<int>
    decreases caps.len() - k,
{
    if k < 0 || k >= caps.len() {
        None
    } else if is_def_name(caps[k].name@) {
        Some(k)
    } else {
        first_def(caps, k + 1)
    }
}

/// The symbol kind that a capture prefix stands for; none for the wrappers
/// (`decorated`, `impl`, `export`) and unknown prefixes.
pub open spec fn kind_of_prefix(prefix: Seq<char>) -> Option<SymbolKind> {
    if prefix == "fn"@ {
        Some(SymbolKind::Function)
    } else if prefix == "method"@ {
        Some(SymbolKind::Method)
    } else if prefix == "class"@ {
        Some(SymbolKind::Class)
    } else if prefix == "struct"@ {
        Some(SymbolKind::Struct)
    } else if prefix == "enum"@ {
        Some(SymbolKind::Enum)
    } else if prefix == "trait"@ {
        Some(SymbolKind::Trait)
    } else if prefix == "interface"@ {
        Some(SymbolKind::Interface)
    } else if prefix == "mod"@ || prefix == "package"@ {
        Some(SymbolKind::Module)
    } else if prefix == "import"@ {
        Some(SymbolKind::Import)
    } else if prefix == "type_alias"@ || prefix == "type"@ {
        Some(SymbolKind::TypeAlias)
    } else if prefix == "const"@ || prefix == "static"@ {
        Some(SymbolKind::Constant)
    } else if prefix == "var"@ {
        Some(SymbolKind::Variable)
    } else {
        None
    }
}

/// A match read as a symbol: its kind and the indices of its name, body
/// and definition captures. The definition is the first capture named
/// `P.def`; the name and body are the first captures named `P.name` and
/// `P.body`.
pub open spec fn classify(caps: Seq<Capture>) -> Option<(SymbolKind, int, Option<int>, int)> {
    match first_def(caps, 0) {
        None => None,
        Some(d) => {
            let prefix = caps[d].name@.subrange(0, caps[d].name@.len() - 4);
            match first_named(caps, prefix + ".name"@, 0) {
                None => None,
                Some(n) => match kind_of_prefix(prefix) {
                    None => None,
                    Some(k) => Some((k, n, first_named(caps, prefix + ".body"@, 0), d)),
                },
            }
        },
    }
}

proof fn lemma_first_named(caps: Seq<Capture>, x: Seq<char>, k: int)
    requires
        0 <= k,
    ensures
        first_named(caps, x, k) matches Some(i) ==> k <= i < caps.len() && caps[i].name@ == x,
    decreases caps.len() - k,
{
    if k < caps.len() {
        lemma_first_named(caps, x, k + 1);
    }
}

proof fn lemma_first_def(caps: Seq<Capture>, k: int)
    requires
        0 <= k,
    ensures
        first_def(caps, k) matches Some(i) ==> k <= i < caps.len() && is_def_name(caps[i].name@),
    decreases caps.len() - k,
{
    if k < caps.len() {
        lemma_first_def(caps, k + 1);
    }
}

/// Index of the first capture named `x`.
fn find_named(caps: &Vec<Capture>, x: &str) -> (r: Option<usize>)
    ensures
        match r {
            Some(i) => first_named(caps@, x@, 0) == Some(i as int) && i < caps.len(),
            None => first_named(caps@, x@, 0) is None,
        },
{
    let mut i: usize = 0;
    while i < caps.len()
        invariant
            i <= caps.len(),
            first_named(caps@, x@, 0) == first_named(caps@, x@, i as int),
        decreases caps.len() - i,
    {
        if same_text(caps[i].name.as_str(), x) {
            return Some(i);
        }
        i = i + 1;
    }
    None
}

/// Index of the first capture whose name ends in `.def`.
fn find_def(caps: &Vec<Capture>) -> (r: Option<usize>)
    ensures
        match r {
            Some(i) => first_def(caps@, 0) == Some(i as int) && i < caps.len(),
            None => first_def(caps@, 0) is None,
        },
{
    let suffix: [char; 4] = ['.', 'd', 'e', 'f'];
    proof {
        reveal_strlit(".def");
        assert(suffix@ =~= ".def"@);
    }
    let mut i: usize = 0;
    while i < caps.len()
        invariant
            i <= caps.len(),
            suffix@ == ".def"@,
            first_def(caps@, 0) == first_def(caps@, i as int),
        decreases caps.len() - i,
    {
        let name = to_chars(caps[i].name.as_str());
        if has_suffix(name.as_slice(), suffix.as_slice()) {
            return Some(i);
        }
        i = i + 1;
    }
    None
}

/// The symbol kind of a capture prefix.
pub fn prefix_kind(prefix: &str) -> (r: Option<SymbolKind>)
    ensures
        r == kind_of_prefix(prefix@),
{
    if same_text(prefix, "fn") {
        Some(SymbolKind::Function)
    } else if same_text(prefix, "method") {
        Some(SymbolKind::Method)
    } else if same_text(prefix, "class") {
        Some(SymbolKind::Class)
    } else if same_text(prefix, "struct") {
        Some(SymbolKind::Struct)
    } else if same_text(prefix, "enum") {
        Some(SymbolKind::Enum)
    } else if same_text(prefix, "trait") {
        Some(SymbolKind::Trait)
    } else if same_text(prefix, "interface") {
        Some(SymbolKind::Interface)
    } else if same_text(prefix, "mod") || same_text(prefix, "package") {
        Some(SymbolKind::Module)
    } else if same_text(prefix, "import") {
        Some(SymbolKind::Import)
    } else if same_text(prefix, "type_alias") || same_text(prefix, "type") {
        Some(SymbolKind::TypeAlias)
    } else if same_text(prefix, "const") || same_text(prefix, "static") {
        Some(SymbolKind::Constant)
    } else if same_text(prefix, "var") {
        Some(SymbolKind::Variable)
    } else {
        None
    }
}

/// Determine the symbol kind and the name, body and definition captures of
/// a match.
pub fn classify_captures(caps: &Vec<Capture>) -> (r: Option<(SymbolKind, usize, Option<usize>, usize)>)
    ensures
        match r {
            Some((k, n, b, d)) => {
                &&& classify(caps@) == Some(
                    (
                        k,
                        n as int,
                        match b {
                            Some(x) => Some(x as int),
                            None => None,
                        },
                        d as int,
                    ),
                )
                &&& n < caps.len() && d < caps.len()
                &&& b matches Some(x) ==> x < caps.len()
            },
            None => classify(caps@) is None,
        },
{
    let d = find_def(caps)?;
    let name = to_chars(caps[d].name.as_str());
    proof {
        lemma_first_def(caps@, 0);
        reveal_strlit(".def");
        assert(name@.len() >= 4);
    }
    let prefix_chars = slice_chars(name.as_slice(), 0, name.len() - 4);
    let prefix = from_chars(prefix_chars.as_slice());
    let mut name_key = prefix.clone();
    crate::text::push_str(&mut name_key, ".name");
    let mut body_key = prefix.clone();
    crate::text::push_str(&mut body_key, ".body");
    let n = find_named(caps, name_key.as_str())?;
    let kind = prefix_kind(prefix.as_str())?;
    let b = find_named(caps, body_key.as_str());
    Some((kind, n, b, d))
}

// ── Signatures ───────────────────────────────────────────────────────────

/// Index of the first occurrence of `p` in `s` (with `contains(s, p)`).
pub open spec fn first_occurrence(s: Seq<char>, p: Seq<char>) -> int {
    choose|i: int|
        crate::text::occurs_at(s, p, i) && forall|j: int| 0 <= j < i ==> !crate::text::occurs_at(s, p, j)
}

/// Signature of a definition: its text up to the first occurrence of the
/// body, trailing white space removed; failing that (no body, body not
/// found, or nothing before it), the first line of the text.
pub open spec fn signature_of(full: Seq<char>, body: Seq<char>) -> Seq<char> {
    let before = if body.len() > 0 && contains(full, body) {
        trim_end(full.subrange(0, first_occurrence(full, body)))
    } else {
        seq![]
    };
    if before.len() > 0 {
        before
    } else if lines(full).len() > 0 {
        lines(full)[0]
    } else {
        seq![]
    }
}

/// `s` with its trailing white space removed.
pub fn trim_end_chars(v: &[char]) -> (r: Vec<char>)
    ensures
        r@ == trim_end(v@),
{
    let mut b: usize = v.len();
    assert(v@.subrange(0, v.len() as int) =~= v@);
    while b > 0 && crate::text::char_is_whitespace(v[b - 1])
        invariant
            b <= v.len(),
            trim_end(v@) == trim_end(v@.subrange(0, b as int)),
        decreases b,
    {
        assert(v@.subrange(0, b as int).drop_last() =~= v@.subrange(0, b - 1));
        b = b - 1;
    }
    slice_chars(v, 0, b)
}

/// The signature of a definition whose text is `full` and body `body`.
pub fn build_signature(full: &[char], body: &[char]) -> (r: Vec<char>)
    ensures
        r@ == signature_of(full@, body@),
{
    if body.len() > 0 {
        match find_chars(full, body) {
            Some(idx) => {
                proof {
                    assert(contains(full@, body@));
                    let c = first_occurrence(full@, body@);
                    if c < idx {
                        assert(!crate::text::occurs_at(full@, body@, c));
                    }
                    if idx < c {
                        assert(!crate::text::occurs_at(full@, body@, idx as int));
                    }
                    assert(c == idx);
                }
                let head = slice_chars(full, 0, idx);
                let sig = trim_end_chars(head.as_slice());
                if sig.len() > 0 {
                    return sig;
                }
            },
            None => {},
        }
    }
    let ls = split_lines(full);
    if ls.len() > 0 {
        let first = slice_chars(ls[0].as_slice(), 0, ls[0].len());
        first
    } else {
        Vec::new()
    }
}

// ── Symbols ──────────────────────────────────────────────────────────────

/// The capture nodes of every match have `start_row <= end_row < usize::MAX`.
pub open spec fn captures_rows_fit(ms: Seq<Vec<Capture>>) -> bool {
    forall|m: int, c: int|
        0 <= m < ms.len() && 0 <= c < ms[m]@.len() ==> {
            let n = (#[trigger] ms[m]@[c]).node;
            n.start_row <= n.end_row < usize::MAX
        }
}

/// What a match defines, as (kind, name, first line, last line, signature,
/// docstring, body); none for imports, matches that are no definition, and
/// matches whose name or body text cannot be read. Lines count from one.
pub open spec fn match_symbol(source: Seq<char>, language: Seq<char>, caps: Seq<Capture>) -> Option<
    (SymbolKind, Seq<char>, int, int, Seq<char>, Option<Seq<char>>, Seq<char>),
> {
    match classify(caps) {
        None => None,
        Some((k, n, b, d)) => if k == SymbolKind::Import {
            None
        } else {
            let def = caps[d].node;
            match node_text(source, caps[n].node) {
                None => None,
                Some(name) => {
                    let body_text = match b {
                        Some(bi) => node_text(source, caps[bi].node),
                        None => node_text(source, def),
                    };
                    match body_text {
                        None => None,
                        Some(body) => {
                            let full = match node_text(source, def) {
                                Some(t) => t,
                                None => seq![],
                            };
                            Some(
                                (
                                    k,
                                    name,
                                    def.start_row + 1,
                                    def.end_row + 1,
                                    signature_of(full, body),
                                    docstring_of(source, language, caps[d]),
                                    body,
                                ),
                            )
                        },
                    }
                },
            }
        },
    }
}

/// `sym` is the symbol that definition `m` of `file` gives, before scopes
/// are assigned.
pub open spec fn is_code_symbol(
    sym: Symbol,
    file: Seq<char>,
    language: Seq<char>,
    m: (SymbolKind, Seq<char>, int, int, Seq<char>, Option<Seq<char>>, Seq<char>),
) -> bool {
    let (kind, name, line_start, line_end, signature, docstring, body) = m;
    let body_hash = sha256_hex_of(body);
    &&& sym.id@ == symbol_id_of(file, name, kind)
    &&& sym.canonical_id@ == canonical_id_of(name, kind, body_hash)
    &&& sym.name@ == name
    &&& sym.kind == kind
    &&& sym.file@ == file
    &&& sym.line_start == line_start
    &&& sym.line_end == line_end
    &&& sym.signature@ == signature
    &&& opt_view(sym.docstring) == docstring
    &&& sym.body@ == body
    &&& sym.body_hash@ == body_hash
    &&& sym.full_hash@ == full_hash_of(signature, body, docstring)
    &&& sym.language@ == language
    &&& sym.scope_chain@.len() == 0
    &&& sym.parent_id is None
}

/// The definitions of the first `k` matches, in match order.
pub open spec fn match_symbols(source: Seq<char>, language: Seq<char>, ms: Seq<Vec<Capture>>, k: int) -> Seq<
    (SymbolKind, Seq<char>, int, int, Seq<char>, Option<Seq<char>>, Seq<char>),
>
    decreases k,
{
    if k <= 0 {
        seq![]
    } else {
        match match_symbol(source, language, ms[k - 1]@) {
            Some(m) => match_symbols(source, language, ms, k - 1).push(m),
            None => match_symbols(source, language, ms, k - 1),
        }
    }
}

/// The symbol that a match defines, if any.
pub fn extract_symbol_from_match(caps: &Vec<Capture>, source: &str, file: &str, language: &str) -> (r:
    Option<Symbol>)
    requires
        forall|c: int|
            0 <= c < caps@.len() ==> (#[trigger] caps@[c]).node.start_row <= caps@[c].node.end_row
                < usize::MAX,
    ensures
        match r {
            Some(sym) => match_symbol(source@, language@, caps@) matches Some(m) && is_code_symbol(
                sym,
                file@,
                language@,
                m,
            ),
            None => match_symbol(source@, language@, caps@) is None,
        },
        r matches Some(sym) ==> sym.line_start <= sym.line_end,
{
    let (kind, n, b, d) = classify_captures(caps)?;
    if kind == SymbolKind::Import {
        return None;
    }
    let def = &caps[d].node;
    let name = text_slice(source, caps[n].node.start_byte, caps[n].node.end_byte)?;
    let body = match b {
        Some(bi) => text_slice(source, caps[bi].node.start_byte, caps[bi].node.end_byte)?,
        None => text_slice(source, def.start_byte, def.end_byte)?,
    };
    let full = match node_chars(source, def) {
        Some(t) => t,
        None => Vec::new(),
    };
    let body_chars = to_chars(body.as_str());
    let signature = from_chars(build_signature(full.as_slice(), body_chars.as_slice()).as_slice());
    let docstring = match extract_docstring(source, language, &caps[d]) {
        Some(dc) => Some(from_chars(dc.as_slice())),
        None => None,
    };
    let body_hash = sha256_hex(body.as_str());
    let full_hash = match &docstring {
        Some(dc) => make_full_hash(signature.as_str(), body.as_str(), Some(dc.as_str())),
        None => make_full_hash(signature.as_str(), body.as_str(), None),
    };
    let id = make_symbol_id(file, name.as_str(), &kind);
    let canonical_id = make_canonical_id(name.as_str(), &kind, body_hash.as_str());
    Some(
        Symbol {
            id,
            canonical_id,
            name,
            kind,
            file: file.to_owned(),
            line_start: def.start_row + 1,
            line_end: def.end_row + 1,
            signature,
            docstring,
            body,
            body_hash,
            full_hash,
            language: language.to_owned(),
            scope_chain: Vec::new(),
            parent_id: None,
        },
    )
}

/// The same definition found in two files gives two symbols with the same
/// canonical identifier and body hash: they identify the code, not its place.
pub proof fn law_canonical_id_ignores_file(
    a: Symbol,
    b: Symbol,
    file_a: Seq<char>,
    file_b: Seq<char>,
    language: Seq<char>,
    m: (SymbolKind, Seq<char>, int, int, Seq<char>, Option<Seq<char>>, Seq<char>),
)
    requires
        is_code_symbol(a, file_a, language, m),
        is_code_symbol(b, file_b, language, m),
    ensures
        a.canonical_id@ == b.canonical_id@,
        a.body_hash@ == b.body_hash@,
        a.full_hash@ == b.full_hash@,
        a.id@ == symbol_id_of(file_a, m.1, m.0),
        b.id@ == symbol_id_of(file_b, m.1, m.0),
{
}

} // verus!

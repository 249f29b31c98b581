//! The text from which a symbol's embedding is computed.
use vstd::prelude::*;
use crate::graph::SymbolRow;
use crate::text::{join, join_chars, push_chars, push_str, to_chars, views};

verus! {

/// What `serde_json::from_str::<Vec<String>>` reads from a text: the list of
/// strings of a JSON array of strings, or nothing when the text is not one.
pub uninterp spec fn json_string_list(text: Seq<char>) -> Option<Seq<Seq<char>>>;

/// `serde_json::from_str::<Vec<String>>`, its error dropped.
#[verifier::external_body]
fn parse_string_list(text: &str) -> (r: Option<Vec<String>>)
    ensures
        match r {
            Some(v) => json_string_list(text@) == Some(v@.map_values(|s: String| s@)),
            None => json_string_list(text@) is None,
        },
{
    serde_json::from_str::<Vec<String>>(text).ok()
}

/// The scope chain stored with a symbol row; empty when it does not read
/// as a JSON list of strings.
pub open spec fn scope_of(row: SymbolRow) -> Seq<Seq<char>> {
    match json_string_list(row.scope_chain@) {
        Some(s) => s,
        None => seq![],
    }
}

/// The scope chain of a symbol row, as a list.
pub fn row_scope(row: &SymbolRow) -> (r: Vec<String>)
    ensures
        r@.map_values(|s: String| s@) == scope_of(*row),
{
    match parse_string_list(row.scope_chain.as_str()) {
        Some(v) => v,
        None => {
            let v: Vec<String> = Vec::new();
            assert(v@.map_values(|s: String| s@) =~= seq![]);
            v
        },
    }
}

/// The lines of a symbol's embedding text: kind and name (with the
/// enclosing scopes), signature, docstring, callers and dependencies, the
/// empty ones left out.
pub open spec fn embedding_parts(sym: SymbolRow, callers: Seq<Seq<char>>, deps: Seq<Seq<char>>) -> Seq<Seq<char>> {
    emb_head(sym) + emb_sig(sym) + emb_doc(sym) + emb_list("called by: "@, callers) + emb_list("uses: "@, deps)
}

/// Kind and name, with the enclosing scopes when there are any.
pub open spec fn emb_head(sym: SymbolRow) -> Seq<Seq<char>> {
    let scope = scope_of(sym);
    let scope_str = if scope.len() > 1 {
        " in "@ + join(scope.subrange(0, scope.len() - 1), " > "@)
    } else {
        seq![]
    };
    seq![sym.kind@ + " "@ + sym.name@ + scope_str]
}

pub open spec fn emb_sig(sym: SymbolRow) -> Seq<Seq<char>> {
    if sym.signature@.len() > 0 {
        seq![sym.signature@]
    } else {
        seq![]
    }
}

pub open spec fn emb_doc(sym: SymbolRow) -> Seq<Seq<char>> {
    match sym.docstring {
        Some(d) => if d@.len() > 0 {
            seq![d@]
        } else {
            seq![]
        },
        None => seq![],
    }
}

/// A labelled comma-separated list, when not empty.
pub open spec fn emb_list(label: Seq<char>, names: Seq<Seq<char>>) -> Seq<Seq<char>> {
    if names.len() > 0 {
        seq![label + join(names, ", "@)]
    } else {
        seq![]
    }
}

/// The text embedded for a symbol.
pub open spec fn embedding_text_of(sym: SymbolRow, callers: Seq<Seq<char>>, deps: Seq<Seq<char>>) -> Seq<char> {
    join(embedding_parts(sym, callers, deps), "\n"@)
}

fn chars_of_all(v: &Vec<String>) -> (r: Vec<Vec<char>>)
    ensures
        views(r@) == v@.map_values(|s: String| s@),
{
    let mut r: Vec<Vec<char>> = Vec::new();
    let mut i: usize = 0;
    while i < v.len()
        invariant
            i <= v.len(),
            views(r@) == v@.subrange(0, i as int).map_values(|s: String| s@),
        decreases v.len() - i,
    {
        let ghost before = views(r@);
        let c = to_chars(v[i].as_str());
        r.push(c);
        assert(views(r@) =~= before.push(c@));
        assert(v@.subrange(0, i + 1).map_values(|s: String| s@) =~= v@.subrange(0, i as int).map_values(|s: String| s@).push(v@[i as int]@));
        i = i + 1;
    }
    assert(v@.subrange(0, v.len() as int) =~= v@);
    r
}

fn push_part(parts: &mut Vec<Vec<char>>, p: Vec<char>)
    ensures
        views(final(parts)@) == views(old(parts)@).push(p@),
{
    let ghost before = views(parts@);
    parts.push(p);
    assert(views(parts@) =~= before.push(p@));
}

/// Build the text to embed for a symbol, with the names of its callers and
/// dependencies.
pub fn build_embedding_text(sym: &SymbolRow, callers: &Vec<String>, deps: &Vec<String>) -> (r: String)
    ensures
        r@ == embedding_text_of(*sym, callers@.map_values(|s: String| s@), deps@.map_values(|s: String| s@)),
{
    let ghost cs = callers@.map_values(|s: String| s@);
    let ghost ds = deps@.map_values(|s: String| s@);
    let scope: Vec<String> = row_scope(sym);
    assert(scope@.map_values(|s: String| s@) =~= scope_of(*sym));
    let comma = to_chars(", ");
    let arrow = to_chars(" > ");
    let nl = to_chars("\n");
    proof {
        reveal_strlit(", ");
        reveal_strlit(" > ");
        reveal_strlit("\n");
        reveal_strlit(" in ");
        reveal_strlit(" ");
        reveal_strlit("called by: ");
        reveal_strlit("uses: ");
    }
    let mut head = String::new();
    push_str(&mut head, sym.kind.as_str());
    push_str(&mut head, " ");
    push_str(&mut head, sym.name.as_str());
    if scope.len() > 1 {
        let sc = chars_of_all(&scope);
        let inner = crate::text::join_range(&sc, 0, sc.len() - 1, arrow.as_slice());
        assert(views(sc@).subrange(0, sc.len() - 1) =~= scope_of(*sym).subrange(0, scope_of(*sym).len() - 1));
        push_str(&mut head, " in ");
        push_chars(&mut head, inner.as_slice());
        assert(inner@ == join(scope_of(*sym).subrange(0, scope_of(*sym).len() - 1), " > "@));
    }
    assert(head@ == emb_head(*sym)[0]);
    let mut parts: Vec<Vec<char>> = Vec::new();
    assert(views(parts@) =~= seq![]);
    push_part(&mut parts, to_chars(head.as_str()));
    assert(views(parts@) =~= emb_head(*sym));
    let sig = to_chars(sym.signature.as_str());
    if sig.len() > 0 {
        push_part(&mut parts, sig);
    }
    assert(views(parts@) =~= emb_head(*sym) + emb_sig(*sym));
    match &sym.docstring {
        Some(d) => {
            let dc = to_chars(d.as_str());
            if dc.len() > 0 {
                push_part(&mut parts, dc);
            }
        },
        None => {},
    }
    assert(views(parts@) =~= emb_head(*sym) + emb_sig(*sym) + emb_doc(*sym));
    if callers.len() > 0 {
        let cc = chars_of_all(callers);
        let mut line = to_chars("called by: ");
        let joined = join_chars(&cc, comma.as_slice());
        let ghost l0 = line@;
        line.extend_from_slice(joined.as_slice());
        assert(line@ == l0 + joined@);
        push_part(&mut parts, line);
    }
    assert(views(parts@) =~= emb_head(*sym) + emb_sig(*sym) + emb_doc(*sym) + emb_list("called by: "@, cs));
    if deps.len() > 0 {
        let dc = chars_of_all(deps);
        let mut line = to_chars("uses: ");
        let joined = join_chars(&dc, comma.as_slice());
        let ghost l0 = line@;
        line.extend_from_slice(joined.as_slice());
        assert(line@ == l0 + joined@);
        push_part(&mut parts, line);
    }
    assert(views(parts@) =~= embedding_parts(*sym, cs, ds));
    let text = join_chars(&parts, nl.as_slice());
    crate::text::from_chars(text.as_slice())
}

} // verus!

//! The command line of the tool: its subcommands and their arguments, and
//! what the editor hook and the skill installer decide.
use vstd::prelude::*;
use crate::graph::SymbolRow;
use crate::text::{
    contains, contains_chars, decimal, decimal_string, ends_with, from_chars, has_suffix, join, join_chars,
    push_str, to_chars, views,
};

verus! {

/// The parsed command line.
#[derive(Debug)]
pub struct Cli {
    pub command: Command,
}

/// The subcommands; every `root` defaults to the current directory.
#[derive(Debug)]
pub enum Command {
    /// Initialize Engram in the current repository
    Init { root: String },
    /// Start the Engram daemon (background indexing + file watching)
    Start { root: String },
    /// Stop the Engram daemon
    Stop,
    /// Show indexing status
    Status { root: String },
    /// Search the codebase
    Search { query: String, top_k: usize, root: String },
    /// Start MCP server (stdio transport)
    Mcp { root: String },
    /// Get brief context for a file (used by editor hooks)
    ContextForFile { file: String, brief: bool, root: String },
    /// Install Engram as an agent skill
    InstallSkill { root: String },
    /// Install the editor hooks
    InstallHooks { root: String },
}

// ── The editor hook's one-line summary ───────────────────────────────────

/// A stored symbol file answers to the file the hook asked about when
/// either path ends with the other (absolute against relative paths).
pub open spec fn file_matches_of(sym_file: Seq<char>, file: Seq<char>) -> bool {
    ends_with(sym_file, file) || ends_with(file, sym_file)
}

/// Whether a stored symbol file answers to the file asked about.
pub fn file_matches(sym_file: &str, file: &str) -> (b: bool)
    ensures
        b == file_matches_of(sym_file@, file@),
{
    let a = to_chars(sym_file);
    let f = to_chars(file);
    has_suffix(a.as_slice(), f.as_slice()) || has_suffix(f.as_slice(), a.as_slice())
}

/// How many symbols the summary names.
pub const TOP_SYMBOLS_SHOWN: usize = 3;

/// A symbol as the summary names it: its kind and name.
pub open spec fn kind_and_name(s: SymbolRow) -> Seq<char> {
    s.kind@ + " "@ + s.name@
}

/// The symbols the summary names: the first `TOP_SYMBOLS_SHOWN`.
pub open spec fn top_symbols(syms: Seq<SymbolRow>) -> Seq<Seq<char>> {
    let n = if syms.len() < TOP_SYMBOLS_SHOWN { syms.len() as int } else { TOP_SYMBOLS_SHOWN as int };
    syms.subrange(0, n).map_values(|s: SymbolRow| kind_and_name(s))
}

/// The hook's summary of a file: how many symbols and callers it has, its
/// rendered highest risk, its stale annotations when there are any, and its
/// first symbols.
pub open spec fn file_context_of(
    file: Seq<char>,
    syms: Seq<SymbolRow>,
    callers: nat,
    risk: Seq<char>,
    stale: nat,
) -> Seq<char> {
    "[engram] "@ + file + " — "@ + decimal(syms.len()) + " symbols, "@ + decimal(callers) + " callers, risk="@
        + risk + if stale > 0 {
        ", "@ + decimal(stale) + " stale annotations"@
    } else {
        seq![]
    } + " | top: "@ + join(top_symbols(syms), ", "@)
}

/// The hook's one-line summary of a file, given its symbols, their total
/// number of callers, the rendered highest risk, and the number of stale
/// annotations on them.
pub fn file_context_line(
    file: &str,
    symbols: &Vec<SymbolRow>,
    total_callers: usize,
    risk: &str,
    stale: usize,
) -> (r: String)
    ensures
        r@ == file_context_of(file@, symbols@, total_callers as nat, risk@, stale as nat),
{
    proof {
        reveal_strlit("[engram] ");
        reveal_strlit(" — ");
        reveal_strlit(" symbols, ");
        reveal_strlit(" callers, risk=");
        reveal_strlit(", ");
        reveal_strlit(" stale annotations");
        reveal_strlit(" | top: ");
        reveal_strlit(" ");
    }
    let n = if symbols.len() < TOP_SYMBOLS_SHOWN { symbols.len() } else { TOP_SYMBOLS_SHOWN };
    let mut parts: Vec<Vec<char>> = Vec::new();
    let mut i: usize = 0;
    while i < n
        invariant
            i <= n,
            n <= symbols.len(),
            views(parts@) == symbols@.subrange(0, i as int).map_values(|s: SymbolRow| kind_and_name(s)),
        decreases n - i,
    {
        let ghost before = views(parts@);
        let mut part = to_chars(symbols[i].kind.as_str());
        part.push(' ');
        let name = to_chars(symbols[i].name.as_str());
        proof {
            reveal_strlit(" ");
            assert(" "@ == seq![' ']);
            assert(part@ =~= symbols@[i as int].kind@ + " "@ + name@.subrange(0, 0));
        }
        let mut j: usize = 0;
        while j < name.len()
            invariant
                i < n <= symbols.len(),
                j <= name.len(),
                part@ == symbols@[i as int].kind@ + " "@ + name@.subrange(0, j as int),
            decreases name.len() - j,
        {
            part.push(name[j]);
            assert(part@ =~= symbols@[i as int].kind@ + " "@ + name@.subrange(0, j + 1));
            j = j + 1;
        }
        assert(name@.subrange(0, name.len() as int) =~= name@);
        parts.push(part);
        assert(views(parts@) =~= before.push(kind_and_name(symbols@[i as int])));
        assert(symbols@.subrange(0, i + 1).map_values(|s: SymbolRow| kind_and_name(s)) =~= symbols@.subrange(
            0,
            i as int,
        ).map_values(|s: SymbolRow| kind_and_name(s)).push(kind_and_name(symbols@[i as int])));
        i = i + 1;
    }
    let sep = to_chars(", ");
    let top = join_chars(&parts, sep.as_slice());
    let mut out = String::new();
    push_str(&mut out, "[engram] ");
    push_str(&mut out, file);
    push_str(&mut out, " — ");
    push_str(&mut out, decimal_string(symbols.len()).as_str());
    push_str(&mut out, " symbols, ");
    push_str(&mut out, decimal_string(total_callers).as_str());
    push_str(&mut out, " callers, risk=");
    push_str(&mut out, risk);
    if stale > 0 {
        push_str(&mut out, ", ");
        push_str(&mut out, decimal_string(stale).as_str());
        push_str(&mut out, " stale annotations");
    }
    push_str(&mut out, " | top: ");
    push_str(&mut out, from_chars(top.as_slice()).as_str());
    out
}

// ── Registering the skill ─────────────────────────────────────────────────

/// The paragraph that registers the skill in the agent's instructions.
pub open spec fn registration_text() -> Seq<char> {
    "\n\n## Engram\nWhen the user types `/engram`, invoke the Skill tool with `skill: \"engram\"` before doing anything else.\n"@
}

/// The instructions file with the skill registered: unchanged (`None`) when
/// it already mentions `/engram`, else the registration appended.
pub fn skill_registration(existing: &str) -> (r: Option<String>)
    ensures
        r is None <==> contains(existing@, "/engram"@),
        r is Some ==> r->0@ == existing@ + registration_text(),
{
    let e = to_chars(existing);
    let marker = to_chars("/engram");
    if contains_chars(e.as_slice(), marker.as_slice()) {
        None
    } else {
        let mut out = existing.to_string();
        push_str(
            &mut out,
            "\n\n## Engram\nWhen the user types `/engram`, invoke the Skill tool with `skill: \"engram\"` before doing anything else.\n",
        );
        Some(out)
    }
}

} // verus!

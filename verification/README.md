# engram

Codebase intelligence for coding agents. Engram parses a repository with
tree-sitter into symbols, call and inheritance edges, keeps them in a graph
store, follows how symbols change over time, lets hash-anchored annotations go
stale (and come back) as code changes, and serves context to agents over MCP.

## Layout

- `src/` — the library, written in Verus. Every function carries a contract
  that Verus proves:
  - `parser/` — language detection, symbol extraction from syntax trees,
    scope chains, docstrings, call and inheritance edges, chunking of large
    symbols, Markdown sections;
  - `graph.rs` — store rows, when a file needs resyncing, full-text entries,
    the breadth-first, depth-limited walk over the call graph;
  - `memory.rs` — the annotation cascade: staleness, reactivation and the
    breadth-first walk over callers;
  - `temporal.rs` — symbol evolution and rename detection;
  - `intelligence.rs` — contradictions between annotations, exact clones,
    community labels;
  - `community.rs` — the call graph's communities by local modularity moves,
    with exact integer gains;
  - `attention.rs` — ranking symbols by callers, blind spots, suggestions and
    importance scores;
  - `git.rs` — ownership from blame, blame and ownership reports;
  - `context.rs`, `report.rs`, `mcp.rs`, `cli.rs` — what the tools and the
    editor hook show, and the decisions they make;
  - `watcher.rs` — debouncing file-system events;
  - `hashing.rs`, `embeddings.rs`, `text.rs` — hashes, embedding texts and
    the string toolkit the rest is written with.
  Calls into outside crates (tree-sitter, sha2, hex, serde_json) stand behind
  small trusted wrappers. Their contracts claim only what the crates' source
  and documentation show. For tree-sitter, one wrapper per grammar parses a
  text, runs the grammar's symbol query and copies the tree and the matches
  into plain values; names stand for the copied tree (`syntax_tree_of`), the
  matches (`query_matches_of`) and whether the grammar accepts the query
  (`query_compiles`), so that the parse results are stated over them.
- `app/` — the program around the library: the command line, the SQLite
  store, git access, the file watcher, embeddings and the MCP server.
- `tests/` — tests of the library on concrete inputs.

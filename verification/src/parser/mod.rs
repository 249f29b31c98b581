pub mod chunking;
pub mod docs;
pub mod edges;
pub mod extract;
pub mod languages;
pub mod markdown;
pub mod paths;
pub mod syntax;
pub mod treesitter;

pub use treesitter::{Edge, EdgeKind, ParseResult, Symbol, SymbolKind};

use vstd::prelude::*;
use crate::text::{from_chars, to_chars};
use languages::same_text;
use paths::{extension_chars, extension_of};

verus! {

/// The language of a file extension we know how to parse.
pub open spec fn language_of_extension(ext: Seq<char>) -> Option<Seq<char>> {
    if ext == "rs"@ {
        Some("rust"@)
    } else if ext == "py"@ {
        Some("python"@)
    } else if ext == "ts"@ || ext == "tsx"@ {
        Some("typescript"@)
    } else if ext == "js"@ || ext == "jsx"@ {
        Some("javascript"@)
    } else if ext == "go"@ {
        Some("go"@)
    } else if ext == "java"@ {
        Some("java"@)
    } else if ext == "c"@ || ext == "h"@ {
        Some("c"@)
    } else if ext == "cpp"@ || ext == "cc"@ || ext == "cxx"@ || ext == "hpp"@ || ext == "hh"@ {
        Some("cpp"@)
    } else if ext == "rb"@ {
        Some("ruby"@)
    } else if ext == "md"@ || ext == "markdown"@ {
        Some("markdown"@)
    } else {
        None
    }
}

/// The language of the file at `path`, from its extension.
pub open spec fn language_of_path(path: Seq<char>) -> Option<Seq<char>> {
    match extension_of(path) {
        Some(e) => language_of_extension(e),
        None => None,
    }
}

/// The language of a file extension.
pub fn language_for_extension(ext: &str) -> (r: Option<&'static str>)
    ensures
        match r {
            Some(l) => language_of_extension(ext@) == Some(l@),
            None => language_of_extension(ext@) is None,
        },
{
    if same_text(ext, "rs") {
        Some("rust")
    } else if same_text(ext, "py") {
        Some("python")
    } else if same_text(ext, "ts") || same_text(ext, "tsx") {
        Some("typescript")
    } else if same_text(ext, "js") || same_text(ext, "jsx") {
        Some("javascript")
    } else if same_text(ext, "go") {
        Some("go")
    } else if same_text(ext, "java") {
        Some("java")
    } else if same_text(ext, "c") || same_text(ext, "h") {
        Some("c")
    } else if same_text(ext, "cpp") || same_text(ext, "cc") || same_text(ext, "cxx")
        || same_text(ext, "hpp") || same_text(ext, "hh") {
        Some("cpp")
    } else if same_text(ext, "rb") {
        Some("ruby")
    } else if same_text(ext, "md") || same_text(ext, "markdown") {
        Some("markdown")
    } else {
        None
    }
}

/// Detect language from file extension.
pub fn detect_language(path: &str) -> (r: Option<&'static str>)
    ensures
        match r {
            Some(l) => language_of_path(path@) == Some(l@),
            None => language_of_path(path@) is None,
        },
{
    let chars = to_chars(path);
    match extension_chars(chars.as_slice()) {
        Some(ext) => {
            let ext_text = from_chars(ext.as_slice());
            language_for_extension(ext_text.as_str())
        },
        None => None,
    }
}

/// Directories that file discovery never enters.
pub open spec fn is_skipped_dir_name(name: Seq<char>) -> bool {
    ||| name == "node_modules"@
    ||| name == "target"@
    ||| name == ".git"@
    ||| name == ".engram"@
    ||| name == "__pycache__"@
    ||| name == ".venv"@
    ||| name == "vendor"@
    ||| name == "dist"@
    ||| name == "build"@
}

/// Whether file discovery skips an entry of this name.
pub fn skip_entry_name(name: &str) -> (b: bool)
    ensures
        b == is_skipped_dir_name(name@),
{
    same_text(name, "node_modules") || same_text(name, "target") || same_text(name, ".git")
        || same_text(name, ".engram") || same_text(name, "__pycache__") || same_text(name, ".venv")
        || same_text(name, "vendor") || same_text(name, "dist") || same_text(name, "build")
}

} // verus!

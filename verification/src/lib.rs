pub mod attention;
pub mod cli;
pub mod community;
pub mod context;
pub mod embeddings;
pub mod git;
pub mod graph;
pub mod hashing;
pub mod intelligence;
pub mod mcp;
pub mod memory;
pub mod parser;
pub mod report;
pub mod temporal;
pub mod text;
pub mod watcher;

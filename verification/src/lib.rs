//! Omni: a file-based route compiler. Handlers found in a directory tree become
//! routes; routes are partitioned into a decision tree of cheap conditions; the tree
//! is lowered to per-method stacks and emitted as router source.
pub mod text;
pub mod hashes;
pub mod http;
pub mod collections;
pub mod router;
pub mod ast;
pub mod condition;
pub mod gentree;
pub mod format;
pub mod passes;
pub mod ctx;
pub mod walk;
pub mod stack;
pub mod languages;

//! Static-analysis core for compiled Android application packages.
//!
//! The crate has two load-bearing parts: a bounds-checked chunk primitive for
//! walking offset-addressed binary containers (`chunk`), and a package/class
//! tree aggregator that merges symbol information from one or more bytecode
//! files into a single deobfuscated, statistics-bearing tree (`package_tree`,
//! with `symbols` supplying the rename table and usage record and `dex`
//! supplying the plain-value model of a decoded bytecode file).
//!
//! Archive extraction, binary-grammar decoding and bytecode parsing are
//! external collaborators: callers hand this crate fully materialized plain
//! values and get structured results back.

pub mod chunk;
pub mod symbols;
pub mod names;
pub mod counts;
pub mod dex;
pub mod package_tree;
pub mod analyzer;

//! A word-search library built around an extended wildcard pattern language.
//!
//! A pattern is compiled into a sequence of tokens (`compile::compile_wildcard`)
//! and matched against candidate words by dynamic programming
//! (`engine::match_compiled`).  `search::search_lines` applies the matcher to
//! the lines of a text, recording the first matching word of each line.

pub mod chars;
pub mod compile;
pub mod engine;
pub mod search;
pub mod tokens;
pub mod words;

//! Finds the largest files among a stream of (path, size) records, filtered by
//! a small boolean query language over path/name regexes, file extension and
//! size comparisons, keeping the best `top_n` candidates in bounded memory.
pub mod ast;
pub mod chars;
pub mod matcher;
pub mod parser;
pub mod rex;
pub mod selector;
pub mod size_literal;

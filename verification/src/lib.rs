//! A small regular-expression engine.
//!
//! A pattern is parsed into a tree, lowered to a program of four
//! instructions, and run by a backtracking virtual machine. A match is
//! anchored at the start of the input: the question answered is whether some
//! slice of the input, from its first character on, belongs to the language of
//! the pattern.
//!
//! ```
//! let expr = "a(bc)+|c(def)*"; // a pattern
//! let line = "cdefdefdef"; // the text to match it against
//! assert_eq!(regex_zero::do_matching(expr, line, true), Ok(true));
//! assert_eq!(regex_zero::do_matching_with_cache(expr, line, true), Ok(true));
//! ```
//!
//! The characters `(`, `)`, `|`, `*`, `+` and `?` are operators; every other
//! character stands for itself. There are no escapes.
pub mod engine;
pub mod helper;

pub use engine::{do_matching, do_matching_with_cache, match_line};

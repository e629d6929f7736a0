//! A small regular-expression engine: a parser that turns a restricted
//! pattern grammar (literals, `\d` and `\w` classes, `[...]` groups with
//! optional `^` negation, the `^` and `$` anchors, the `+` and `?`
//! quantifiers, and the `.` wildcard) into a sequence of fragments, and a
//! matcher that decides whether one line of text matches that sequence.
//!
//! A pattern matches a line when some start position admits a contiguous
//! match of the whole fragment sequence; quantifiers are resolved by full
//! backtracking, so a quantified fragment never steals characters that a
//! later fragment needs. A sequence that still has fragments left when the
//! position reaches the end of the line fails, even if its next fragment
//! could cover an empty span there.

pub mod laws;
pub mod matcher;
pub mod parser;
pub mod pattern;
pub mod semantics;

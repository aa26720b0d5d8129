//! Brace-expansion glob patterns such as `foo-{bar,baz}-beat`: a parser from
//! escaped text to an expression tree, a formatter back to text, and an
//! expansion of a tree into every string it denotes, in order.
mod error;
mod expand;
mod expr;
mod format;
mod laws;
mod parse;
mod syntax;

pub use crate::expand::{alt_expansions, cross, expansions, texts, ExpandGlobIter};
pub use crate::error::{GlobParseError, LiteralParseError, ParseErrorKind};
pub use crate::expr::{GlobExpr, GlobExprKind, GlobGroup, Literal};
pub use crate::laws::{
    all_well_formed, lemma_alternatives_in_order, lemma_count_law, lemma_escape_parses,
    lemma_each_choice_once, lemma_expansion_order, lemma_round_trip, sum_counts,
    well_formed,
};
pub use crate::parse::{expr, is_special_char, literal};
pub use crate::syntax::{
    escape_char, escaped, is_special, parse_alts, parse_expr, parse_glob, parse_literal_text,
    scan_literal, unparse, unparse_alts, Glob,
};

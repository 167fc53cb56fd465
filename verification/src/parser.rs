//! Scanning text into matches: the tokenizer, the per-language matcher, the
//! line-oriented driver and the indentation scan.

pub mod indent;
pub mod languages;
pub mod lookahead;
pub mod markers;
pub mod matcher;
pub mod parse;
pub mod parts;
pub mod text;
pub mod tokenize;


use vstd::prelude::*;
use vstd::string::*;
use crate::buffer::{parsed, ParsedBuffer};
use crate::parser::languages::rules_for;
use crate::parser::matcher::rule_views;
use crate::parser::text::{joined, line_bytes};

pub use crate::parser::matcher::{Kind, Match, MatchWithLine, Matcher, Rule, RuleKind, Token};
pub use crate::parser::parse::{parse, State};

verus! {

/// Parses the lines of a text in the language of the given name, starting in
/// the given state. There is no buffer for a name that is not known.
pub fn parse_filetype(filetype: &str, tab_width: u8, lines: &[&str], initial_state: State) -> (buffer:
    Option<ParsedBuffer>)
    ensures
        match rules_for(filetype.spec_bytes()) {
            Some(rules) => buffer is Some && buffer->0.wf() && buffer->0@ == parsed(
                rule_views(rules),
                joined(line_bytes(lines@)),
                initial_state@,
                tab_width,
            ),
            None => buffer is None,
        },
{
    match Matcher::for_filetype(filetype) {
        Some(matcher) => Some(parse(tab_width, lines, initial_state, &matcher)),
        None => None,
    }
}

} // verus!

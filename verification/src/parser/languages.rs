//! The languages that the scanner knows, each with its table of rules.
//!
//! A table lists its rules in the order in which they are tried: block
//! spans, block comments, line comments, inline spans, strings, delimiters.

use vstd::prelude::*;
use vstd::string::*;
use super::matcher::{Matcher, Rule, RuleKind};
use super::text::str_eq;

verus! {

/// The rule for a pair of delimiters.
pub open spec fn delimiter_rule(open: &'static str, close: &'static str) -> Rule {
    Rule { kind: RuleKind::Delimiter, name: "", open, close }
}

/// The rule for a comment that runs to the end of its line.
pub open spec fn line_comment_rule(open: &'static str) -> Rule {
    Rule { kind: RuleKind::LineComment, name: "", open, close: "" }
}

/// The rule for a comment between two markers.
pub open spec fn block_comment_rule(open: &'static str, close: &'static str) -> Rule {
    Rule { kind: RuleKind::BlockComment, name: "", open, close }
}

/// The rule for a string between two quotes on one line.
pub open spec fn string_rule(quote: &'static str) -> Rule {
    Rule { kind: RuleKind::String, name: "", open: quote, close: quote }
}

/// The rule for a named span that ends with its line.
pub open spec fn inline_span_rule(
    name: &'static str,
    open: &'static str,
    close: &'static str,
) -> Rule {
    Rule { kind: RuleKind::InlineSpan, name, open, close }
}

/// The rule for a named span that may run over lines.
pub open spec fn block_span_rule(
    name: &'static str,
    open: &'static str,
    close: &'static str,
) -> Rule {
    Rule { kind: RuleKind::BlockSpan, name, open, close }
}

impl Rule {
    /// The rule for a pair of delimiters.
    pub fn delimiter(open: &'static str, close: &'static str) -> (rule: Rule)
        ensures
            rule == delimiter_rule(open, close),
    {
        Rule { kind: RuleKind::Delimiter, name: "", open, close }
    }

    /// The rule for a comment that runs to the end of its line.
    pub fn line_comment(open: &'static str) -> (rule: Rule)
        ensures
            rule == line_comment_rule(open),
    {
        Rule { kind: RuleKind::LineComment, name: "", open, close: "" }
    }

    /// The rule for a comment between two markers.
    pub fn block_comment(open: &'static str, close: &'static str) -> (rule: Rule)
        ensures
            rule == block_comment_rule(open, close),
    {
        Rule { kind: RuleKind::BlockComment, name: "", open, close }
    }

    /// The rule for a string between two quotes on one line.
    pub fn string(quote: &'static str) -> (rule: Rule)
        ensures
            rule == string_rule(quote),
    {
        Rule { kind: RuleKind::String, name: "", open: quote, close: quote }
    }

    /// The rule for a named span that ends with its line.
    pub fn inline_span(name: &'static str, open: &'static str, close: &'static str) -> (rule: Rule)
        ensures
            rule == inline_span_rule(name, open, close),
    {
        Rule { kind: RuleKind::InlineSpan, name, open, close }
    }

    /// The rule for a named span that may run over lines.
    pub fn block_span(name: &'static str, open: &'static str, close: &'static str) -> (rule: Rule)
        ensures
            rule == block_span_rule(name, open, close),
    {
        Rule { kind: RuleKind::BlockSpan, name, open, close }
    }
}

/// Round, square and curly brackets.
pub open spec fn bracket_rules() -> Seq<Rule> {
    seq![delimiter_rule("(", ")"), delimiter_rule("[", "]"), delimiter_rule("{", "}")]
}

/// The table of C.
pub open spec fn c_rules() -> Seq<Rule> {
    seq![block_comment_rule("/*", "*/"), line_comment_rule("//"), string_rule("\""), string_rule("'")]
        + bracket_rules()
}

/// The table of Rust.
pub open spec fn rust_rules() -> Seq<Rule> {
    seq![block_comment_rule("/*", "*/"), line_comment_rule("//"), string_rule("\"")]
        + bracket_rules()
}

/// The table of TeX: `$` and `$$` open and close the spans named `math`.
pub open spec fn tex_rules() -> Seq<Rule> {
    seq![
        block_span_rule("math", "$$", "$$"),
        line_comment_rule("%"),
        inline_span_rule("math", "$", "$"),
    ] + bracket_rules()
}

/// The table of SQL.
pub open spec fn sql_rules() -> Seq<Rule> {
    seq![
        block_comment_rule("/*", "*/"),
        line_comment_rule("--"),
        line_comment_rule("#"),
        string_rule("\""),
        string_rule("'"),
        string_rule("$$"),
        string_rule("`"),
    ] + bracket_rules()
}

/// The table of Vim script.
pub open spec fn vim_rules() -> Seq<Rule> {
    bracket_rules()
}

/// The table of the language with the given name, if the name is known.
pub open spec fn rules_for(filetype: Seq<u8>) -> Option<Seq<Rule>> {
    if filetype == "c".spec_bytes() {
        Some(c_rules())
    } else if filetype == "rust".spec_bytes() {
        Some(rust_rules())
    } else if filetype == "tex".spec_bytes() {
        Some(tex_rules())
    } else if filetype == "sql".spec_bytes() {
        Some(sql_rules())
    } else if filetype == "vim".spec_bytes() {
        Some(vim_rules())
    } else {
        None
    }
}

/// Adds the bracket rules to a table.
fn push_brackets(rules: &mut Vec<Rule>)
    ensures
        final(rules)@ == old(rules)@ + bracket_rules(),
{
    rules.push(Rule::delimiter("(", ")"));
    rules.push(Rule::delimiter("[", "]"));
    rules.push(Rule::delimiter("{", "}"));
    assert(rules@ =~= old(rules)@ + bracket_rules());
}

/// Builds the table of C.
fn c() -> (rules: Vec<Rule>)
    ensures
        rules@ == c_rules(),
{
    let mut rules: Vec<Rule> = Vec::new();
    rules.push(Rule::block_comment("/*", "*/"));
    rules.push(Rule::line_comment("//"));
    rules.push(Rule::string("\""));
    rules.push(Rule::string("'"));
    assert(rules@ =~= seq![
        block_comment_rule("/*", "*/"),
        line_comment_rule("//"),
        string_rule("\""),
        string_rule("'"),
    ]);
    push_brackets(&mut rules);
    rules
}

/// Builds the table of Rust.
fn rust() -> (rules: Vec<Rule>)
    ensures
        rules@ == rust_rules(),
{
    let mut rules: Vec<Rule> = Vec::new();
    rules.push(Rule::block_comment("/*", "*/"));
    rules.push(Rule::line_comment("//"));
    rules.push(Rule::string("\""));
    assert(rules@ =~= seq![
        block_comment_rule("/*", "*/"),
        line_comment_rule("//"),
        string_rule("\""),
    ]);
    push_brackets(&mut rules);
    rules
}

/// Builds the table of TeX.
fn tex() -> (rules: Vec<Rule>)
    ensures
        rules@ == tex_rules(),
{
    let mut rules: Vec<Rule> = Vec::new();
    rules.push(Rule::block_span("math", "$$", "$$"));
    rules.push(Rule::line_comment("%"));
    rules.push(Rule::inline_span("math", "$", "$"));
    assert(rules@ =~= seq![
        block_span_rule("math", "$$", "$$"),
        line_comment_rule("%"),
        inline_span_rule("math", "$", "$"),
    ]);
    push_brackets(&mut rules);
    rules
}

/// Builds the table of SQL.
fn sql() -> (rules: Vec<Rule>)
    ensures
        rules@ == sql_rules(),
{
    let mut rules: Vec<Rule> = Vec::new();
    rules.push(Rule::block_comment("/*", "*/"));
    rules.push(Rule::line_comment("--"));
    rules.push(Rule::line_comment("#"));
    rules.push(Rule::string("\""));
    rules.push(Rule::string("'"));
    rules.push(Rule::string("$$"));
    rules.push(Rule::string("`"));
    assert(rules@ =~= seq![
        block_comment_rule("/*", "*/"),
        line_comment_rule("--"),
        line_comment_rule("#"),
        string_rule("\""),
        string_rule("'"),
        string_rule("$$"),
        string_rule("`"),
    ]);
    push_brackets(&mut rules);
    rules
}

/// Builds the table of Vim script.
fn vim() -> (rules: Vec<Rule>)
    ensures
        rules@ == vim_rules(),
{
    let mut rules: Vec<Rule> = Vec::new();
    push_brackets(&mut rules);
    assert(Seq::<Rule>::empty() + bracket_rules() == bracket_rules());
    rules
}

impl Matcher {
    /// The matcher of the language with the given name; none for a name that
    /// is not known.
    pub fn for_filetype(filetype: &str) -> (matcher: Option<Matcher>)
        ensures
            match rules_for(filetype.spec_bytes()) {
                Some(rules) => matcher is Some && matcher->0.rules@ == rules,
                None => matcher is None,
            },
    {
        if str_eq(filetype, "c") {
            Some(Matcher { rules: c() })
        } else if str_eq(filetype, "rust") {
            Some(Matcher { rules: rust() })
        } else if str_eq(filetype, "tex") {
            Some(Matcher { rules: tex() })
        } else if str_eq(filetype, "sql") {
            Some(Matcher { rules: sql() })
        } else if str_eq(filetype, "vim") {
            Some(Matcher { rules: vim() })
        } else {
            None
        }
    }
}

} // verus!

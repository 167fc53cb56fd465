//! The driver: runs a matcher over the tokens of a text and gathers the
//! matches and the closing state of every line.

use vstd::prelude::*;
use vstd::string::*;
use crate::buffer::{parsed, ParsedBuffer};
use super::indent::indent_levels_of;
use super::lookahead::{multipeek, next_token, pending, peeked};
use super::matcher::{
    lemma_first_closer, lemma_first_firing, marker_bytes, match_views, spaced, step_spec, Match,
    MatchView, Matcher, RuleView,
};
use super::text::{
    count_newlines, join_lines, joined, lemma_split_lines_len, line_bytes, split_lines, BACKSLASH,
    NEWLINE,
};
use super::tokenize::{
    column_at, is_token_byte, lemma_column_bound, lemma_column_prefix, tokenize, tokens_of, CharPos,
};

verus! {

/// The lexical context at some point of the text.
#[derive(Debug, Clone, Copy, PartialEq)]
pub enum State {
    Normal,
    /// Inside a string that ends with its line, with the marker that closes it.
    InString(&'static str),
    /// Inside a string that may run over lines, with the marker that closes it.
    InBlockString(&'static str),
    InLineComment,
    /// Inside a block comment, with the marker that closes it.
    InBlockComment(&'static str),
    /// Inside the inline span of the given name.
    InInlineSpan(&'static str),
    /// Inside the block span of the given name.
    InBlockSpan(&'static str),
}

/// A state with each marker and name taken as its bytes.
pub enum StateView {
    Normal,
    InString(Seq<u8>),
    InBlockString(Seq<u8>),
    InLineComment,
    InBlockComment(Seq<u8>),
    InInlineSpan(Seq<u8>),
    InBlockSpan(Seq<u8>),
}

impl StateView {
    /// The state that is carried into the next line: what cannot cross a line
    /// end falls back to `Normal`.
    pub open spec fn at_line_end(self) -> StateView {
        match self {
            StateView::InString(_) | StateView::InLineComment | StateView::InInlineSpan(_) =>
                StateView::Normal,
            _ => self,
        }
    }

    /// Whether the state is one that a line can end in: it is left as it is
    /// at a line end.
    pub open spec fn crosses_lines(self) -> bool {
        self.at_line_end() == self
    }

    /// The name of the span that the state is inside of, if it is in one.
    pub open spec fn span(self) -> Option<Seq<u8>> {
        match self {
            StateView::InInlineSpan(name) => Some(name),
            StateView::InBlockSpan(name) => Some(name),
            _ => None,
        }
    }
}

impl View for State {
    type V = StateView;

    open spec fn view(&self) -> StateView {
        match *self {
            State::Normal => StateView::Normal,
            State::InString(marker) => StateView::InString(marker.spec_bytes()),
            State::InBlockString(marker) => StateView::InBlockString(marker.spec_bytes()),
            State::InLineComment => StateView::InLineComment,
            State::InBlockComment(marker) => StateView::InBlockComment(marker.spec_bytes()),
            State::InInlineSpan(name) => StateView::InInlineSpan(name.spec_bytes()),
            State::InBlockSpan(name) => StateView::InBlockSpan(name.spec_bytes()),
        }
    }
}

impl State {
    /// The state that is carried into the next line.
    pub fn at_line_end(self) -> (next: State)
        ensures
            next@ == self@.at_line_end(),
    {
        match self {
            State::InString(_) | State::InLineComment | State::InInlineSpan(_) => State::Normal,
            _ => self,
        }
    }
}

/// The views of a run of states.
pub open spec fn state_views(states: Seq<State>) -> Seq<StateView> {
    states.map_values(|s: State| s@)
}

/// The views of the matches of a run of lines.
pub open spec fn line_views(lines: Seq<Vec<Match>>) -> Seq<Seq<MatchView>> {
    lines.map_values(|line: Vec<Match>| match_views(line@))
}

/// What a scan yields: for every line its matches and the state it ends in.
pub struct Scanned {
    pub lines: Seq<Seq<MatchView>>,
    pub states: Seq<StateView>,
}

/// Whether a backslash pending at `escape` escapes the token in column `col`:
/// it does when it stands directly before it.
pub open spec fn escapes(escape: Option<usize>, col: usize) -> bool {
    escape is Some && escape->0 + 1 == col
}

/// The scan of a token stream from a given state, with a pending backslash
/// and the matches found so far on the line in progress.
///
/// A newline ends the line: its matches are laid down together with the state
/// that is carried over. A backslash escapes the token directly after it,
/// unless it is escaped itself. Every other token is one step of the
/// matcher, which may take further tokens. The end of the stream ends the
/// last line.
pub open spec fn run(
    rules: Seq<RuleView>,
    tokens: Seq<CharPos>,
    state: StateView,
    escape: Option<usize>,
    line: Seq<MatchView>,
) -> Scanned
    decreases tokens.len(),
{
    if tokens.len() == 0 {
        Scanned { lines: seq![line], states: seq![state.at_line_end()] }
    } else {
        let token = tokens[0];
        let rest = tokens.drop_first();
        if token.0 == NEWLINE {
            let after = run(rules, rest, state.at_line_end(), None, Seq::empty());
            Scanned {
                lines: seq![line] + after.lines,
                states: seq![state.at_line_end()] + after.states,
            }
        } else if token.0 == BACKSLASH {
            let escape = if escapes(escape, token.1) {
                None
            } else {
                Some(token.1)
            };
            run(rules, rest, state, escape, line)
        } else {
            let outcome = step_spec(rules, state, token, rest, escapes(escape, token.1));
            let taken = if outcome.consumed <= rest.len() {
                outcome.consumed as int
            } else {
                rest.len() as int
            };
            let line = match outcome.emitted {
                Some(m) => line.push(m),
                None => line,
            };
            run(rules, rest.skip(taken), outcome.state, None, line)
        }
    }
}

/// The scan of a whole text from a given state.
pub open spec fn scan_spec(rules: Seq<RuleView>, text: Seq<u8>, initial_state: StateView) -> Scanned {
    run(
        rules,
        tokens_of(text, marker_bytes(rules)),
        initial_state,
        None,
        Seq::empty(),
    )
}

/// Scans `text` with `matcher`, starting in `initial_state`: tokenizes it and
/// drives the matcher over the tokens, line by line.
#[verifier::rlimit(50)]
pub fn scan(matcher: &Matcher, text: &[u8], initial_state: State) -> (found: (
    Vec<Vec<Match>>,
    Vec<State>,
))
    ensures
        line_views(found.0@) == scan_spec(matcher@, text@, initial_state@).lines,
        state_views(found.1@) == scan_spec(matcher@, text@, initial_state@).states,
{
    let interest = matcher.tokens();
    let all = tokenize(text, interest.as_slice());
    let ghost rules = matcher@;
    let ghost whole = run(rules, all@, initial_state@, None, Seq::empty());
    let mut tokens = multipeek(all);

    let mut matches_by_line: Vec<Vec<Match>> = Vec::new();
    let mut line_matches: Vec<Match> = Vec::new();
    let mut state_by_line: Vec<State> = Vec::new();
    let mut state = initial_state;
    let mut escaped_col: Option<usize> = None;

    proof {
        assert(match_views(line_matches@) == Seq::<MatchView>::empty());
        assert(line_views(matches_by_line@) == Seq::<Seq<MatchView>>::empty());
        assert(state_views(state_by_line@) == Seq::<StateView>::empty());
        assert(Seq::<Seq<MatchView>>::empty() + whole.lines == whole.lines);
        assert(Seq::<StateView>::empty() + whole.states == whole.states);
    }
    loop
        invariant
            rules == matcher@,
            peeked(tokens) == 0,
            line_views(matches_by_line@) + run(
                rules,
                pending(tokens),
                state@,
                escaped_col,
                match_views(line_matches@),
            ).lines == whole.lines,
            state_views(state_by_line@) + run(
                rules,
                pending(tokens),
                state@,
                escaped_col,
                match_views(line_matches@),
            ).states == whole.states,
        ensures
            pending(tokens).len() == 0,
        decreases pending(tokens).len(),
    {
        let ghost before = pending(tokens);
        let ghost here = run(rules, before, state@, escaped_col, match_views(line_matches@));
        let token = match next_token(&mut tokens) {
            Some(token) => token,
            None => {
                break ;
            },
        };
        if token.0 == NEWLINE {
            state = state.at_line_end();
            proof {
                let after = run(rules, before.drop_first(), state@, None, Seq::empty());
                let done = line_views(matches_by_line@);
                let line = match_views(line_matches@);
                assert(done.push(line) + after.lines == done + (seq![line] + after.lines));
                let states = state_views(state_by_line@);
                assert(states.push(state@) + after.states == states + (seq![state@]
                    + after.states));
            }
            matches_by_line.push(line_matches);
            line_matches = Vec::new();
            state_by_line.push(state);
            escaped_col = None;
            proof {
                assert(match_views(line_matches@) == Seq::<MatchView>::empty());
                assert(line_views(matches_by_line@) == line_views(
                    matches_by_line@.drop_last(),
                ).push(match_views(matches_by_line@.last()@)));
                assert(state_views(state_by_line@) == state_views(
                    state_by_line@.drop_last(),
                ).push(state@));
            }
            continue ;
        }
        if token.0 == BACKSLASH {
            escaped_col = match escaped_col {
                Some(col) if col < token.1 && col == token.1 - 1 => None,
                _ => Some(token.1),
            };
            assert(run(rules, pending(tokens), state@, escaped_col, match_views(line_matches@))
                == here);
            continue ;
        }
        let escaped = match escaped_col {
            Some(col) => col < token.1 && col == token.1 - 1,
            None => false,
        };
        let ghost line_before = match_views(line_matches@);
        let ghost outcome = step_spec(rules, state@, token, before.drop_first(), escaped);
        state = matcher.step(&mut line_matches, &mut tokens, state, token, escaped);
        escaped_col = None;
        proof {
            assert(line_before + Seq::<MatchView>::empty() == line_before);
            if outcome.emitted is Some {
                assert(line_before + seq![outcome.emitted->0] == line_before.push(
                    outcome.emitted->0,
                ));
            }
            assert(run(rules, pending(tokens), state@, escaped_col, match_views(line_matches@))
                == here);
        }
    }
    matches_by_line.push(line_matches);
    state_by_line.push(state.at_line_end());
    proof {
        let done = line_views(matches_by_line@.drop_last());
        assert(line_views(matches_by_line@) == done.push(match_views(line_matches@)));
        assert(done.push(match_views(line_matches@)) == done + seq![match_views(line_matches@)]);
        let states = state_views(state_by_line@.drop_last());
        assert(state_views(state_by_line@) == states.push(state@.at_line_end()));
        assert(states.push(state@.at_line_end()) == states + seq![state@.at_line_end()]);
    }
    (matches_by_line, state_by_line)
}

/// Whether the token at `i` stands in a lower column than the one after it,
/// unless it ends its line.
pub open spec fn steps_up(tokens: Seq<CharPos>, i: int) -> bool {
    tokens[i].0 != NEWLINE ==> tokens[i].1 < tokens[i + 1].1
}

/// Whether the columns of the tokens rise within every line.
pub open spec fn rising(tokens: Seq<CharPos>) -> bool {
    forall|i: int| 0 <= i < tokens.len() - 1 ==> #[trigger] steps_up(tokens, i)
}

/// The number of newlines among the tokens.
pub open spec fn newline_tokens(tokens: Seq<CharPos>) -> nat
    decreases tokens.len(),
{
    if tokens.len() == 0 {
        0
    } else {
        newline_tokens(tokens.drop_first()) + if tokens[0].0 == NEWLINE {
            1nat
        } else {
            0nat
        }
    }
}

/// Whether every match of the line ends at or before the given column.
pub open spec fn ends_before(line: Seq<MatchView>, col: int) -> bool {
    forall|k: int| 0 <= k < line.len() ==> (#[trigger] line[k]).col + line[k].len() <= col
}

/// What a step takes and emits: the tokens it takes are the rest of the
/// marker it recognised, none of them a newline, and the match it emits
/// covers exactly that marker.
pub proof fn lemma_step_shape(
    rules: Seq<RuleView>,
    state: StateView,
    token: CharPos,
    rest: Seq<CharPos>,
    escaped: bool,
)
    ensures
        ({
            let outcome = step_spec(rules, state, token, rest, escaped);
            &&& outcome.consumed <= rest.len()
            &&& forall|k: int|
                0 <= k < outcome.consumed ==> (#[trigger] rest[k]).0 != NEWLINE && rest[k].1
                    == token.1 + k + 1
            &&& outcome.emitted matches Some(m) ==> m.col == token.1 && m.len() == outcome.consumed
                + 1 && m.stack_height is None
        }),
{
    lemma_first_firing(rules, token, rest, 0);
    lemma_first_closer(rules, state, 0);
    let outcome = step_spec(rules, state, token, rest, escaped);
    assert forall|k: int| 0 <= k < outcome.consumed implies (#[trigger] rest[k]).0 != NEWLINE
        && rest[k].1 == token.1 + k + 1 by {
        assert(rest[(k + 1) - 1] == rest[k]);
    }
}

/// Skipping tokens that are no newlines leaves the number of newlines.
proof fn lemma_newline_tokens_skip(tokens: Seq<CharPos>, n: int)
    requires
        0 <= n <= tokens.len(),
        forall|k: int| 0 <= k < n ==> (#[trigger] tokens[k]).0 != NEWLINE,
    ensures
        newline_tokens(tokens.skip(n)) == newline_tokens(tokens),
    decreases n,
{
    if n > 0 {
        let rest = tokens.drop_first();
        assert forall|k: int| 0 <= k < n - 1 implies (#[trigger] rest[k]).0 != NEWLINE by {
            assert(rest[k] == tokens[k + 1]);
        }
        lemma_newline_tokens_skip(rest, n - 1);
        assert(rest.skip(n - 1) == tokens.skip(n));
    } else {
        assert(tokens.skip(0) == tokens);
    }
}

/// One more token adds to the number of newlines if it is one.
proof fn lemma_newline_tokens_push(tokens: Seq<CharPos>, token: CharPos)
    ensures
        newline_tokens(tokens.push(token)) == newline_tokens(tokens) + if token.0 == NEWLINE {
            1nat
        } else {
            0nat
        },
    decreases tokens.len(),
{
    let pushed = tokens.push(token);
    if tokens.len() == 0 {
        assert(pushed.drop_first() == Seq::<CharPos>::empty());
        assert(pushed[0] == token);
        assert(newline_tokens(pushed.drop_first()) == 0);
    } else {
        assert(pushed.drop_first() == tokens.drop_first().push(token));
        assert(pushed[0] == tokens[0]);
        lemma_newline_tokens_push(tokens.drop_first(), token);
    }
}

/// The shape of what a scan of tokens yields: one line and one state more
/// than there are newlines, and on every line the matches stand in rising
/// columns without overlap.
#[verifier::rlimit(50)]
pub proof fn lemma_run_shape(
    rules: Seq<RuleView>,
    tokens: Seq<CharPos>,
    state: StateView,
    escape: Option<usize>,
    line: Seq<MatchView>,
)
    requires
        rising(tokens),
        spaced(line),
        tokens.len() > 0 ==> ends_before(line, tokens[0].1 as int),
    ensures
        run(rules, tokens, state, escape, line).lines.len() == newline_tokens(tokens) + 1,
        run(rules, tokens, state, escape, line).states.len() == newline_tokens(tokens) + 1,
        forall|l: int|
            0 <= l < run(rules, tokens, state, escape, line).lines.len() ==> spaced(
                #[trigger] run(rules, tokens, state, escape, line).lines[l],
            ),
    decreases tokens.len(),
{
    if tokens.len() > 0 {
        let token = tokens[0];
        let rest = tokens.drop_first();
        assert forall|i: int| 0 <= i < rest.len() - 1 implies #[trigger] steps_up(rest, i) by {
            assert(steps_up(tokens, i + 1));
        }
        if token.0 == NEWLINE {
            lemma_run_shape(rules, rest, state.at_line_end(), None, Seq::empty());
        } else if token.0 == BACKSLASH {
            let escape = if escapes(escape, token.1) {
                None
            } else {
                Some(token.1)
            };
            if rest.len() > 0 {
                assert(steps_up(tokens, 0));
            }
            lemma_run_shape(rules, rest, state, escape, line);
        } else {
            let outcome = step_spec(rules, state, token, rest, escapes(escape, token.1));
            lemma_step_shape(rules, state, token, rest, escapes(escape, token.1));
            let taken = outcome.consumed as int;
            let next = rest.skip(taken);
            let line_after = match outcome.emitted {
                Some(m) => line.push(m),
                None => line,
            };
            assert forall|i: int| 0 <= i < next.len() - 1 implies #[trigger] steps_up(next, i) by {
                assert(steps_up(rest, i + taken));
            }
            lemma_newline_tokens_skip(rest, taken);
            if next.len() > 0 {
                assert(next[0] == rest[taken]);
                assert(rest[taken] == tokens[taken + 1]);
                assert(steps_up(tokens, taken));
                if taken > 0 {
                    assert(rest[taken - 1] == tokens[taken]);
                }
                assert(token.1 + taken < next[0].1);
            }
            lemma_run_shape(rules, next, outcome.state, None, line_after);
        }
    }
}

/// The tokens of a text rise in column within every line, and hold every
/// newline of the text.
pub proof fn lemma_tokens_shape(text: Seq<u8>, interest: Seq<u8>)
    requires
        text.len() <= usize::MAX,
    ensures
        rising(tokens_of(text, interest)),
        newline_tokens(tokens_of(text, interest)) == count_newlines(text),
        tokens_of(text, interest).len() > 0 && tokens_of(text, interest).last().0 != NEWLINE
            ==> tokens_of(text, interest).last().1 < column_at(text, text.len() as int),
    decreases text.len(),
{
    if text.len() > 0 {
        let before = text.drop_last();
        let b = text.last();
        let n = text.len() as int;
        lemma_tokens_shape(before, interest);
        lemma_column_prefix(text, n - 1, n - 1);
        lemma_column_bound(text, n - 1);
        let earlier = tokens_of(before, interest);
        let tokens = tokens_of(text, interest);
        if is_token_byte(b, interest) {
            let token = (b, column_at(text, n - 1) as usize);
            lemma_newline_tokens_push(earlier, token);
            assert forall|i: int| 0 <= i < tokens.len() - 1 implies #[trigger] steps_up(
                tokens,
                i,
            ) by {
                assert(tokens[i] == earlier[i]);
                if i + 1 < earlier.len() {
                    assert(steps_up(earlier, i));
                }
            }
        }
    }
}

/// A scan of tokens yields one line and one state more than there are
/// newlines among the tokens, and no line ends in a state that cannot cross
/// a line end.
pub proof fn lemma_run_count(
    rules: Seq<RuleView>,
    tokens: Seq<CharPos>,
    state: StateView,
    escape: Option<usize>,
    line: Seq<MatchView>,
)
    ensures
        run(rules, tokens, state, escape, line).lines.len() == newline_tokens(tokens) + 1,
        run(rules, tokens, state, escape, line).states.len() == newline_tokens(tokens) + 1,
        forall|l: int|
            0 <= l < run(rules, tokens, state, escape, line).states.len() ==> (#[trigger] run(
                rules,
                tokens,
                state,
                escape,
                line,
            ).states[l]).crosses_lines(),
    decreases tokens.len(),
{
    if tokens.len() > 0 {
        let token = tokens[0];
        let rest = tokens.drop_first();
        if token.0 == NEWLINE {
            lemma_run_count(rules, rest, state.at_line_end(), None, Seq::empty());
        } else if token.0 == BACKSLASH {
            let escape = if escapes(escape, token.1) {
                None
            } else {
                Some(token.1)
            };
            lemma_run_count(rules, rest, state, escape, line);
        } else {
            let outcome = step_spec(rules, state, token, rest, escapes(escape, token.1));
            lemma_step_shape(rules, state, token, rest, escapes(escape, token.1));
            let taken = outcome.consumed as int;
            let line_after = match outcome.emitted {
                Some(m) => line.push(m),
                None => line,
            };
            lemma_newline_tokens_skip(rest, taken);
            lemma_run_count(rules, rest.skip(taken), outcome.state, None, line_after);
        }
    }
}

/// The tokens of a text hold every newline of the text.
pub proof fn lemma_tokens_newlines(text: Seq<u8>, interest: Seq<u8>)
    ensures
        newline_tokens(tokens_of(text, interest)) == count_newlines(text),
    decreases text.len(),
{
    if text.len() > 0 {
        lemma_tokens_newlines(text.drop_last(), interest);
        if is_token_byte(text.last(), interest) {
            lemma_newline_tokens_push(
                tokens_of(text.drop_last(), interest),
                (text.last(), column_at(text, text.len() - 1) as usize),
            );
        }
    }
}

/// The scan of a text has one entry for each line of the text, and no line
/// ends in a state that cannot cross a line end.
pub proof fn lemma_scan_count(rules: Seq<RuleView>, text: Seq<u8>, initial_state: StateView)
    ensures
        scan_spec(rules, text, initial_state).lines.len() == split_lines(text).len(),
        scan_spec(rules, text, initial_state).states.len() == split_lines(text).len(),
        forall|l: int|
            0 <= l < scan_spec(rules, text, initial_state).states.len() ==> (#[trigger] scan_spec(
                rules,
                text,
                initial_state,
            ).states[l]).crosses_lines(),
{
    lemma_tokens_newlines(text, marker_bytes(rules));
    lemma_split_lines_len(text);
    lemma_run_count(
        rules,
        tokens_of(text, marker_bytes(rules)),
        initial_state,
        None,
        Seq::empty(),
    );
}

/// The shape of the scan of a text: one entry for each line of the text, on
/// every line the matches stand in rising columns without overlap, and no
/// line ends in a state that cannot cross a line end.
pub proof fn lemma_scan_shape(rules: Seq<RuleView>, text: Seq<u8>, initial_state: StateView)
    requires
        text.len() <= usize::MAX,
    ensures
        scan_spec(rules, text, initial_state).lines.len() == split_lines(text).len(),
        scan_spec(rules, text, initial_state).states.len() == split_lines(text).len(),
        forall|l: int|
            0 <= l < scan_spec(rules, text, initial_state).lines.len() ==> spaced(
                #[trigger] scan_spec(rules, text, initial_state).lines[l],
            ),
        forall|l: int|
            0 <= l < scan_spec(rules, text, initial_state).states.len() ==> (#[trigger] scan_spec(
                rules,
                text,
                initial_state,
            ).states[l]).crosses_lines(),
{
    lemma_scan_count(rules, text, initial_state);
    lemma_tokens_shape(text, marker_bytes(rules));
    lemma_split_lines_len(text);
    lemma_run_shape(
        rules,
        tokens_of(text, marker_bytes(rules)),
        initial_state,
        None,
        Seq::empty(),
    );
}

/// Parses the lines of a text with the given matcher, starting in the given
/// state: scans them for matches, resolves the nesting depths, and measures
/// the indentation of every line.
pub fn parse(tab_width: u8, lines: &[&str], initial_state: State, matcher: &Matcher) -> (buffer:
    ParsedBuffer)
    ensures
        buffer.wf(),
        buffer@ == parsed(matcher@, joined(line_bytes(lines@)), initial_state@, tab_width),
{
    let text = join_lines(lines);
    let (matches_by_line, state_by_line) = scan(matcher, text.as_slice(), initial_state);
    let indentation = indent_levels_of::<16>(text.as_slice(), tab_width);
    proof {
        assert(text@.len() == text.len());
        lemma_scan_shape(matcher@, text@, initial_state@);
        lemma_split_lines_len(text@);
        assert(matches_by_line@.len() == line_views(matches_by_line@).len());
        assert(state_by_line@.len() == state_views(state_by_line@).len());
    }
    ParsedBuffer::assemble(matches_by_line, state_by_line, indentation, tab_width)
}

} // verus!

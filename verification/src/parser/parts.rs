//! Scanning a text in parts: what the scan of a text is in terms of the
//! scans of the lines before a line break and of the lines after it.

use vstd::prelude::*;
use super::indent::indent_levels_spec;
use super::matcher::{
    first_closer, first_firing, marker_at, marker_bytes, step_spec, MatchView, RuleView,
};
use super::parse::{
    escapes, lemma_scan_count, lemma_step_shape, run, scan_spec, Scanned, StateView,
};
use super::text::{joined, lemma_split_lines_len, split_lines, BACKSLASH, NEWLINE};
use super::tokenize::{column_at, is_token_byte, lemma_column_prefix, tokens_of, CharPos};

verus! {

/// Two texts with a line break between them.
pub open spec fn broken(first: Seq<u8>, second: Seq<u8>) -> Seq<u8> {
    first + seq![NEWLINE] + second
}

/// Columns start anew after a line break.
proof fn lemma_column_after_break(first: Seq<u8>, second: Seq<u8>, i: int)
    requires
        0 <= i <= second.len(),
    ensures
        column_at(broken(first, second), first.len() + 1 + i) == column_at(second, i),
    decreases i,
{
    let text = broken(first, second);
    assert(text[first.len() as int] == NEWLINE);
    if i > 0 {
        assert(text[first.len() + 1 + i - 1] == second[i - 1]);
        if second[i - 1] != NEWLINE {
            lemma_column_after_break(first, second, i - 1);
        }
    }
}

/// The tokens of two texts with a line break between them are the tokens of
/// the first, the line break, and the tokens of the second.
pub proof fn lemma_tokens_broken(first: Seq<u8>, second: Seq<u8>, interest: Seq<u8>)
    ensures
        tokens_of(broken(first, second), interest) == tokens_of(first, interest).push(
            (NEWLINE, column_at(first, first.len() as int) as usize),
        ) + tokens_of(second, interest),
    decreases second.len(),
{
    let text = broken(first, second);
    let head = tokens_of(first, interest).push(
        (NEWLINE, column_at(first, first.len() as int) as usize),
    );
    if second.len() == 0 {
        assert(text == first.push(NEWLINE));
        assert(text.drop_last() == first);
        lemma_column_prefix(text, first.len() as int, first.len() as int);
        assert(text.take(first.len() as int) == first);
        assert(tokens_of(second, interest) == Seq::<CharPos>::empty());
        assert(head + Seq::<CharPos>::empty() == head);
    } else {
        let shorter = second.drop_last();
        lemma_tokens_broken(first, shorter, interest);
        assert(text.drop_last() == broken(first, shorter));
        assert(text.last() == second.last());
        lemma_column_after_break(first, second, second.len() - 1);
        let earlier = tokens_of(shorter, interest);
        if is_token_byte(second.last(), interest) {
            let token = (second.last(), column_at(second, second.len() - 1) as usize);
            assert((head + earlier).push(token) == head + earlier.push(token));
        }
    }
}

/// Whether a marker stands at a token does not depend on what follows the
/// next line break.
proof fn lemma_marker_at_broken(
    marker: Seq<u8>,
    token: CharPos,
    rest: Seq<CharPos>,
    col: usize,
    after: Seq<CharPos>,
)
    ensures
        marker_at(marker, token, rest.push((NEWLINE, col)) + after) == marker_at(
            marker,
            token,
            rest,
        ),
{
    let long = rest.push((NEWLINE, col)) + after;
    if marker_at(marker, token, rest) {
        assert forall|k: int| 1 <= k < marker.len() implies (#[trigger] long[k - 1]).0 == marker[k]
            && long[k - 1].1 == token.1 + k by {
            assert(long[k - 1] == rest[k - 1]);
        }
    }
    if marker_at(marker, token, long) {
        if marker.len() - 1 > rest.len() {
            let k = rest.len() as int + 1;
            assert(long[k - 1] == (NEWLINE, col));
            assert(marker[k] != NEWLINE);
        }
        assert forall|k: int| 1 <= k < marker.len() implies (#[trigger] rest[k - 1]).0 == marker[k]
            && rest[k - 1].1 == token.1 + k by {
            assert(long[k - 1] == rest[k - 1]);
        }
    }
}

/// Which rule fires at a token does not depend on what follows the next
/// line break.
proof fn lemma_first_firing_broken(
    rules: Seq<RuleView>,
    token: CharPos,
    rest: Seq<CharPos>,
    col: usize,
    after: Seq<CharPos>,
    from: int,
)
    requires
        0 <= from,
    ensures
        first_firing(rules, token, rest.push((NEWLINE, col)) + after, from) == first_firing(
            rules,
            token,
            rest,
            from,
        ),
        forall|i: int|
            0 <= i < rules.len() ==> (#[trigger] rules[i]).fires(
                token,
                rest.push((NEWLINE, col)) + after,
            ) == rules[i].fires(token, rest),
    decreases rules.len() - from,
{
    assert forall|i: int| 0 <= i < rules.len() implies (#[trigger] rules[i]).fires(
        token,
        rest.push((NEWLINE, col)) + after,
    ) == rules[i].fires(token, rest) by {
        lemma_marker_at_broken(rules[i].open, token, rest, col, after);
        lemma_marker_at_broken(rules[i].close, token, rest, col, after);
    }
    if from < rules.len() {
        lemma_first_firing_broken(rules, token, rest, col, after, from + 1);
    }
}

/// A step of the matcher does not depend on what follows the next line
/// break.
proof fn lemma_step_broken(
    rules: Seq<RuleView>,
    state: StateView,
    token: CharPos,
    rest: Seq<CharPos>,
    col: usize,
    after: Seq<CharPos>,
    escaped: bool,
)
    ensures
        step_spec(rules, state, token, rest.push((NEWLINE, col)) + after, escaped) == step_spec(
            rules,
            state,
            token,
            rest,
            escaped,
        ),
{
    let long = rest.push((NEWLINE, col)) + after;
    lemma_first_firing_broken(rules, token, rest, col, after, 0);
    super::matcher::lemma_first_firing(rules, token, rest, 0);
    super::matcher::lemma_first_closer(rules, state, 0);
    match state {
        StateView::InString(close) => {
            lemma_marker_at_broken(close, token, rest, col, after);
        },
        StateView::InBlockString(close) => {
            lemma_marker_at_broken(close, token, rest, col, after);
        },
        _ => {},
    }
    if first_closer(rules, state, 0) is Some {
        let i = first_closer(rules, state, 0)->0;
        lemma_marker_at_broken(rules[i].close, token, rest, col, after);
    }
}

/// The scan of two runs of tokens with a line break between them is the scan
/// of the first run, and after it the scan of the second from the state in
/// which the first ends.
#[verifier::rlimit(50)]
pub proof fn lemma_run_broken(
    rules: Seq<RuleView>,
    first: Seq<CharPos>,
    col: usize,
    second: Seq<CharPos>,
    state: StateView,
    escape: Option<usize>,
    line: Seq<MatchView>,
)
    ensures
        ({
            let whole = run(rules, first.push((NEWLINE, col)) + second, state, escape, line);
            let head = run(rules, first, state, escape, line);
            let tail = run(rules, second, head.states.last(), None, Seq::empty());
            &&& head.states.len() > 0
            &&& whole.lines == head.lines + tail.lines
            &&& whole.states == head.states + tail.states
        }),
    decreases first.len(),
{
    let all = first.push((NEWLINE, col)) + second;
    let whole = run(rules, all, state, escape, line);
    let head = run(rules, first, state, escape, line);
    if first.len() == 0 {
        assert(all[0] == (NEWLINE, col));
        assert(all.drop_first() == second);
    } else {
        let token = first[0];
        let rest = first.drop_first();
        assert(all[0] == token);
        assert(all.drop_first() == rest.push((NEWLINE, col)) + second);
        if token.0 == NEWLINE {
            lemma_run_broken(rules, rest, col, second, state.at_line_end(), None, Seq::empty());
            let inner = run(rules, rest, state.at_line_end(), None, Seq::empty());
            let tail = run(rules, second, inner.states.last(), None, Seq::empty());
            assert(head.states.last() == inner.states.last());
            assert(seq![line] + (inner.lines + tail.lines) == (seq![line] + inner.lines)
                + tail.lines);
            assert(seq![state.at_line_end()] + (inner.states + tail.states) == (seq![
                state.at_line_end(),
            ] + inner.states) + tail.states);
        } else if token.0 == BACKSLASH {
            let next = if escapes(escape, token.1) {
                None
            } else {
                Some(token.1)
            };
            lemma_run_broken(rules, rest, col, second, state, next, line);
        } else {
            let escaped = escapes(escape, token.1);
            lemma_step_broken(rules, state, token, rest, col, second, escaped);
            lemma_step_shape(rules, state, token, rest, escaped);
            let outcome = step_spec(rules, state, token, rest, escaped);
            let taken = outcome.consumed as int;
            let line_after = match outcome.emitted {
                Some(m) => line.push(m),
                None => line,
            };
            assert((rest.push((NEWLINE, col)) + second).skip(taken) == rest.skip(taken).push(
                (NEWLINE, col),
            ) + second);
            lemma_run_broken(rules, rest.skip(taken), col, second, outcome.state, None, line_after);
        }
    }
}

/// The scan of two texts with a line break between them is the scan of the
/// first, and after it the scan of the second from the state in which the
/// first ends.
pub proof fn lemma_scan_broken(
    rules: Seq<RuleView>,
    first: Seq<u8>,
    second: Seq<u8>,
    state: StateView,
)
    ensures
        ({
            let whole = scan_spec(rules, broken(first, second), state);
            let head = scan_spec(rules, first, state);
            let tail = scan_spec(rules, second, head.states.last());
            &&& head.states.len() > 0
            &&& whole.lines == head.lines + tail.lines
            &&& whole.states == head.states + tail.states
        }),
{
    let interest = marker_bytes(rules);
    lemma_tokens_broken(first, second, interest);
    lemma_run_broken(
        rules,
        tokens_of(first, interest),
        column_at(first, first.len() as int) as usize,
        tokens_of(second, interest),
        state,
        None,
        Seq::empty(),
    );
}

/// The lines of two texts with a line break between them are the lines of
/// the first and the lines of the second.
pub proof fn lemma_split_lines_broken(first: Seq<u8>, second: Seq<u8>)
    ensures
        split_lines(broken(first, second)) == split_lines(first) + split_lines(second),
    decreases second.len(),
{
    let text = broken(first, second);
    lemma_split_lines_len(first);
    lemma_split_lines_len(second);
    if second.len() == 0 {
        assert(text == first.push(NEWLINE));
        assert(text.drop_last() == first);
        assert(split_lines(first).push(Seq::empty()) == split_lines(first) + seq![
            Seq::<u8>::empty(),
        ]);
    } else {
        let shorter = second.drop_last();
        lemma_split_lines_broken(first, shorter);
        lemma_split_lines_len(shorter);
        assert(text.drop_last() == broken(first, shorter));
        assert(text.last() == second.last());
        let a = split_lines(first);
        let b = split_lines(shorter);
        if second.last() == NEWLINE {
            assert((a + b).push(Seq::empty()) == a + b.push(Seq::empty()));
        } else {
            assert((a + b).update((a + b).len() - 1, (a + b).last().push(second.last())) =~= a
                + b.update(b.len() - 1, b.last().push(second.last())));
        }
    }
}

/// The indentation of two texts with a line break between them is that of
/// the lines of the first and that of the lines of the second.
pub proof fn lemma_indent_broken(first: Seq<u8>, second: Seq<u8>, tab_width: u8)
    ensures
        indent_levels_spec(broken(first, second), tab_width) == indent_levels_spec(
            first,
            tab_width,
        ) + indent_levels_spec(second, tab_width),
{
    lemma_split_lines_broken(first, second);
    assert(indent_levels_spec(broken(first, second), tab_width) =~= indent_levels_spec(
        first,
        tab_width,
    ) + indent_levels_spec(second, tab_width));
}

/// Whether no line holds a line break.
pub open spec fn plain(lines: Seq<Seq<u8>>) -> bool {
    forall|l: int, i: int|
        0 <= l < lines.len() && 0 <= i < lines[l].len() ==> #[trigger] lines[l][i] != NEWLINE
}

/// The scan of a run of lines from a given state; of no lines, nothing.
pub open spec fn scan_lines(rules: Seq<RuleView>, lines: Seq<Seq<u8>>, state: StateView) -> Scanned {
    if lines.len() == 0 {
        Scanned { lines: Seq::empty(), states: Seq::empty() }
    } else {
        scan_spec(rules, joined(lines), state)
    }
}

/// The state that a run of lines, scanned from a given state, hands on to
/// the line after it.
pub open spec fn carried(rules: Seq<RuleView>, lines: Seq<Seq<u8>>, state: StateView) -> StateView {
    if lines.len() == 0 {
        state
    } else {
        scan_spec(rules, joined(lines), state).states.last()
    }
}

/// The indentation of a run of lines; of no lines, nothing.
pub open spec fn indent_lines(lines: Seq<Seq<u8>>, tab_width: u8) -> Seq<u8> {
    if lines.len() == 0 {
        Seq::empty()
    } else {
        indent_levels_spec(joined(lines), tab_width)
    }
}

/// Joining two runs of lines puts a line break between their texts.
pub proof fn lemma_joined_add(first: Seq<Seq<u8>>, second: Seq<Seq<u8>>)
    requires
        first.len() > 0,
        second.len() > 0,
    ensures
        joined(first + second) == broken(joined(first), joined(second)),
    decreases second.len(),
{
    let all = first + second;
    assert(all.drop_last() == first + second.drop_last());
    assert(all.last() == second.last());
    if second.len() == 1 {
        assert(first + second.drop_last() == first);
        assert(joined(second) == second[0]);
    } else {
        lemma_joined_add(first, second.drop_last());
        let a = joined(first);
        let b = joined(second.drop_last());
        assert((a + seq![NEWLINE] + b) + seq![NEWLINE] + second.last() == a + seq![NEWLINE] + (b
            + seq![NEWLINE] + second.last()));
    }
}

/// A text without a line break is one line.
pub proof fn lemma_split_plain_line(line: Seq<u8>)
    requires
        forall|i: int| 0 <= i < line.len() ==> #[trigger] line[i] != NEWLINE,
    ensures
        split_lines(line) == seq![line],
    decreases line.len(),
{
    if line.len() == 0 {
        assert(line == Seq::<u8>::empty());
    } else {
        let shorter = line.drop_last();
        assert forall|i: int| 0 <= i < shorter.len() implies #[trigger] shorter[i] != NEWLINE by {
            assert(shorter[i] == line[i]);
        }
        lemma_split_plain_line(shorter);
        assert(line.last() == line[line.len() - 1]);
        assert(shorter.push(line.last()) == line);
        assert(seq![shorter].update(0, shorter.push(line.last())) == seq![line]);
    }
}

/// Lines without line breaks are the lines of their joined text.
pub proof fn lemma_split_joined(lines: Seq<Seq<u8>>)
    requires
        lines.len() > 0,
        plain(lines),
    ensures
        split_lines(joined(lines)) == lines,
    decreases lines.len(),
{
    let last = lines.last();
    assert forall|i: int| 0 <= i < last.len() implies #[trigger] last[i] != NEWLINE by {
        assert(lines[lines.len() - 1][i] != NEWLINE);
    }
    lemma_split_plain_line(last);
    if lines.len() == 1 {
        assert(lines == seq![last]);
    } else {
        let shorter = lines.drop_last();
        assert(plain(shorter)) by {
            assert forall|l: int, i: int|
                0 <= l < shorter.len() && 0 <= i < shorter[l].len() implies #[trigger] shorter[l][i]
                != NEWLINE by {
                assert(lines[l][i] != NEWLINE);
            }
        }
        lemma_split_joined(shorter);
        lemma_split_lines_broken(joined(shorter), last);
        assert(shorter + seq![last] == lines);
    }
}

/// The scan of lines without line breaks has one entry for each line.
pub proof fn lemma_scan_lines_count(
    rules: Seq<RuleView>,
    lines: Seq<Seq<u8>>,
    state: StateView,
    tab_width: u8,
)
    requires
        plain(lines),
    ensures
        scan_lines(rules, lines, state).lines.len() == lines.len(),
        scan_lines(rules, lines, state).states.len() == lines.len(),
        indent_lines(lines, tab_width).len() == lines.len(),
{
    if lines.len() > 0 {
        lemma_split_joined(lines);
        lemma_scan_count(rules, joined(lines), state);
    }
}

/// The scan of two runs of lines, one after the other, is the scan of the
/// first and then the scan of the second from the state that the first hands
/// on; and so for their indentation.
pub proof fn lemma_scan_lines_add(
    rules: Seq<RuleView>,
    first: Seq<Seq<u8>>,
    second: Seq<Seq<u8>>,
    state: StateView,
    tab_width: u8,
)
    ensures
        scan_lines(rules, first + second, state).lines == scan_lines(rules, first, state).lines
            + scan_lines(rules, second, carried(rules, first, state)).lines,
        scan_lines(rules, first + second, state).states == scan_lines(rules, first, state).states
            + scan_lines(rules, second, carried(rules, first, state)).states,
        carried(rules, first + second, state) == carried(
            rules,
            second,
            carried(rules, first, state),
        ),
        indent_lines(first + second, tab_width) == indent_lines(first, tab_width) + indent_lines(
            second,
            tab_width,
        ),
{
    let head = scan_lines(rules, first, state);
    let tail = scan_lines(rules, second, carried(rules, first, state));
    if first.len() == 0 {
        assert(first + second == second);
        assert(head.lines + tail.lines == tail.lines);
        assert(head.states + tail.states == tail.states);
        assert(indent_lines(first, tab_width) + indent_lines(second, tab_width) == indent_lines(
            second,
            tab_width,
        ));
    } else if second.len() == 0 {
        assert(first + second == first);
        assert(head.lines + tail.lines == head.lines);
        assert(head.states + tail.states == head.states);
        assert(indent_lines(first, tab_width) + indent_lines(second, tab_width) == indent_lines(
            first,
            tab_width,
        ));
    } else {
        lemma_joined_add(first, second);
        lemma_scan_broken(rules, joined(first), joined(second), state);
        lemma_indent_broken(joined(first), joined(second), tab_width);
        lemma_scan_count(rules, joined(second), carried(rules, first, state));
        lemma_split_lines_len(joined(second));
        let whole = scan_lines(rules, first + second, state);
        assert(whole.states.last() == tail.states.last());
    }
}

} // verus!

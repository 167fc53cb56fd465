//! Markers in the text: a marker stands at a token exactly where the text
//! holds the marker's bytes.

use vstd::prelude::*;
use super::matcher::{
    lemma_first_closer, lemma_first_firing, marker_at, marker_bytes, step_spec, Kind, MatchView,
    RuleView,
};
use super::parse::{escapes, lemma_step_shape, run, scan_spec, StateView};
use super::parts::{
    broken, lemma_scan_broken, lemma_split_lines_broken, lemma_split_plain_line,
};
use super::text::{lemma_split_lines_len, split_lines, BACKSLASH, NEWLINE};
use super::tokenize::{
    column_at, is_token_byte, lemma_column_bound, lemma_column_prefix, tokens_of, CharPos,
};

verus! {

/// The places in the text of its tokens, in order.
pub open spec fn token_positions(text: Seq<u8>, interest: Seq<u8>) -> Seq<int>
    decreases text.len(),
{
    if text.len() == 0 {
        Seq::empty()
    } else {
        let before = token_positions(text.drop_last(), interest);
        if is_token_byte(text.last(), interest) {
            before.push(text.len() - 1)
        } else {
            before
        }
    }
}

/// Whether the text holds the bytes of the marker from place `at` on.
pub open spec fn text_holds(text: Seq<u8>, at: int, marker: Seq<u8>) -> bool {
    &&& 0 <= at
    &&& at + marker.len() <= text.len()
    &&& text.subrange(at, at + marker.len()) == marker
}

/// Whether a marker holds no line break.
pub open spec fn unbroken(marker: Seq<u8>) -> bool {
    forall|k: int| 0 <= k < marker.len() ==> #[trigger] marker[k] != NEWLINE
}

/// There are as many places as tokens.
pub proof fn lemma_places_len(text: Seq<u8>, interest: Seq<u8>)
    ensures
        token_positions(text, interest).len() == tokens_of(text, interest).len(),
    decreases text.len(),
{
    if text.len() > 0 {
        lemma_places_len(text.drop_last(), interest);
    }
}

/// A token is the byte at its place, with the column of that place.
pub proof fn lemma_place_of_token(text: Seq<u8>, interest: Seq<u8>, i: int)
    requires
        0 <= i < tokens_of(text, interest).len(),
    ensures
        token_positions(text, interest).len() == tokens_of(text, interest).len(),
        0 <= token_positions(text, interest)[i] < text.len(),
        tokens_of(text, interest)[i] == (
            text[token_positions(text, interest)[i]],
            column_at(text, token_positions(text, interest)[i]) as usize,
        ),
    decreases text.len(),
{
    lemma_places_len(text, interest);
    if text.len() > 0 {
        let shorter = text.drop_last();
        lemma_places_len(shorter, interest);
        let earlier = token_positions(shorter, interest);
        if i < earlier.len() {
            lemma_place_of_token(shorter, interest, i);
            let at = earlier[i];
            assert(token_positions(text, interest)[i] == at);
            assert(tokens_of(text, interest)[i] == tokens_of(shorter, interest)[i]);
            assert(shorter[at] == text[at]);
            assert(text.take(text.len() - 1) == shorter);
            lemma_column_prefix(text, text.len() - 1, at);
        }
    }
}

/// The places of the tokens rise.
pub proof fn lemma_places_rise(text: Seq<u8>, interest: Seq<u8>, i: int, j: int)
    requires
        0 <= i < j < tokens_of(text, interest).len(),
    ensures
        token_positions(text, interest)[i] < token_positions(text, interest)[j],
    decreases text.len(),
{
    lemma_places_len(text, interest);
    if text.len() > 0 {
        let shorter = text.drop_last();
        lemma_places_len(shorter, interest);
        let earlier = token_positions(shorter, interest);
        if j < earlier.len() {
            lemma_places_rise(shorter, interest, i, j);
        } else {
            lemma_place_of_token(shorter, interest, i);
        }
    }
}

/// The next token byte after a token is, or lies after, the next token.
pub proof fn lemma_places_next(text: Seq<u8>, interest: Seq<u8>, i: int, q: int)
    requires
        0 <= i < tokens_of(text, interest).len(),
        token_positions(text, interest)[i] < q < text.len(),
        is_token_byte(text[q], interest),
    ensures
        i + 1 < tokens_of(text, interest).len(),
        token_positions(text, interest)[i] < token_positions(text, interest)[i + 1] <= q,
    decreases text.len(),
{
    lemma_places_len(text, interest);
    lemma_place_of_token(text, interest, i);
    let shorter = text.drop_last();
    lemma_places_len(shorter, interest);
    let earlier = token_positions(shorter, interest);
    let places = token_positions(text, interest);
    assert(i < earlier.len());
    assert(places[i] == earlier[i]);
    if q < text.len() - 1 {
        assert(shorter[q] == text[q]);
        lemma_places_next(shorter, interest, i, q);
        assert(places[i + 1] == earlier[i + 1]);
    } else if i + 1 < earlier.len() {
        lemma_places_rise(shorter, interest, i, i + 1);
        lemma_place_of_token(shorter, interest, i + 1);
        assert(places[i + 1] == earlier[i + 1]);
    }
}

/// Within a stretch without a line break the column rises with the place.
pub proof fn lemma_column_in_line(text: Seq<u8>, a: int, b: int)
    requires
        0 <= a <= b <= text.len(),
        forall|q: int| a <= q < b ==> #[trigger] text[q] != NEWLINE,
    ensures
        column_at(text, b) == column_at(text, a) + (b - a),
    decreases b - a,
{
    if a < b {
        lemma_column_in_line(text, a, b - 1);
        assert(text[b - 1] != NEWLINE);
    }
}

/// Where the text holds the marker, the tokens from `i` on are the marker's
/// bytes at the places that follow.
proof fn lemma_tokens_follow_text(
    text: Seq<u8>,
    interest: Seq<u8>,
    marker: Seq<u8>,
    i: int,
    k: int,
)
    requires
        0 <= i < tokens_of(text, interest).len(),
        forall|x: int| 0 <= x < marker.len() ==> is_token_byte(#[trigger] marker[x], interest),
        text_holds(text, token_positions(text, interest)[i], marker),
        0 <= k < marker.len(),
    ensures
        i + k < tokens_of(text, interest).len(),
        token_positions(text, interest)[i + k] == token_positions(text, interest)[i] + k,
    decreases k,
{
    if k > 0 {
        lemma_tokens_follow_text(text, interest, marker, i, k - 1);
        let places = token_positions(text, interest);
        let q = places[i] + k;
        assert(text.subrange(places[i], places[i] + marker.len())[k] == text[q]);
        assert(is_token_byte(marker[k], interest));
        lemma_places_next(text, interest, i + k - 1, q);
    }
}

/// Where the marker stands at the token `i`, the tokens from `i` on stand at
/// the places that follow the place of `i`.
#[verifier::rlimit(50)]
proof fn lemma_text_follows_tokens(
    text: Seq<u8>,
    interest: Seq<u8>,
    marker: Seq<u8>,
    i: int,
    k: int,
)
    requires
        text.len() <= usize::MAX,
        0 <= i < tokens_of(text, interest).len(),
        marker_at(marker, tokens_of(text, interest)[i], tokens_of(text, interest).skip(i + 1)),
        0 <= k < marker.len(),
    ensures
        i + k < tokens_of(text, interest).len(),
        token_positions(text, interest)[i + k] == token_positions(text, interest)[i] + k,
        token_positions(text, interest)[i] + k < text.len(),
        text[token_positions(text, interest)[i] + k] == marker[k],
    decreases k,
{
    let tokens = tokens_of(text, interest);
    let places = token_positions(text, interest);
    let rest = tokens.skip(i + 1);
    lemma_place_of_token(text, interest, i);
    if k > 0 {
        lemma_text_follows_tokens(text, interest, marker, i, k - 1);
        assert(rest[k - 1] == tokens[i + k]);
        lemma_place_of_token(text, interest, i + k - 1);
        lemma_place_of_token(text, interest, i + k);
        lemma_places_rise(text, interest, i + k - 1, i + k);
        let a = places[i + k - 1];
        let b = places[i + k];
        assert(marker[k - 1] != NEWLINE);
        assert(text[a] == marker[k - 1]);
        assert forall|q: int| a <= q < b implies #[trigger] text[q] != NEWLINE by {
            if q > a && text[q] == NEWLINE {
                lemma_places_next(text, interest, i + k - 1, q);
            }
        }
        lemma_column_in_line(text, a, b);
        lemma_column_bound(text, a);
        lemma_column_bound(text, b);
        if k > 1 {
            let before = k - 1;
            assert(rest[before - 1] == tokens[i + k - 1]);
            assert(tokens[i + k - 1].1 == tokens[i].1 + before);
        }
        assert(tokens[i + k].1 == tokens[i].1 + k);
        assert(column_at(text, b) == column_at(text, a) + 1);
    }
}

/// The columns of the tokens that follow the place of `i` where the text
/// holds the marker.
proof fn lemma_columns_follow_text(
    text: Seq<u8>,
    interest: Seq<u8>,
    marker: Seq<u8>,
    i: int,
    k: int,
)
    requires
        text.len() <= usize::MAX,
        0 <= i < tokens_of(text, interest).len(),
        unbroken(marker),
        forall|x: int| 0 <= x < marker.len() ==> is_token_byte(#[trigger] marker[x], interest),
        text_holds(text, token_positions(text, interest)[i], marker),
        0 <= k < marker.len(),
    ensures
        i + k < tokens_of(text, interest).len(),
        tokens_of(text, interest)[i + k].0 == marker[k],
        tokens_of(text, interest)[i + k].1 == tokens_of(text, interest)[i].1 + k,
{
    let places = token_positions(text, interest);
    let at = places[i];
    lemma_tokens_follow_text(text, interest, marker, i, k);
    lemma_place_of_token(text, interest, i);
    lemma_place_of_token(text, interest, i + k);
    assert(text.subrange(at, at + marker.len())[k] == text[at + k]);
    assert forall|q: int| at <= q < at + k implies #[trigger] text[q] != NEWLINE by {
        assert(text.subrange(at, at + marker.len())[q - at] == text[q]);
        assert(marker[q - at] != NEWLINE);
    }
    lemma_column_in_line(text, at, at + k);
    lemma_column_bound(text, at);
    lemma_column_bound(text, at + k);
}

/// A marker whose bytes are all handed on by the tokenizer stands at a token
/// exactly where the text holds the marker's bytes from the token's place
/// on, and the marker holds a byte and no line break.
pub proof fn lemma_marker_at_is_text(
    text: Seq<u8>,
    interest: Seq<u8>,
    marker: Seq<u8>,
    i: int,
)
    requires
        text.len() <= usize::MAX,
        0 <= i < tokens_of(text, interest).len(),
        forall|x: int| 0 <= x < marker.len() ==> is_token_byte(#[trigger] marker[x], interest),
    ensures
        token_positions(text, interest).len() == tokens_of(text, interest).len(),
        marker_at(marker, tokens_of(text, interest)[i], tokens_of(text, interest).skip(i + 1)) == (
        marker.len() > 0 && unbroken(marker) && text_holds(
            text,
            token_positions(text, interest)[i],
            marker,
        )),
{
    let tokens = tokens_of(text, interest);
    let places = token_positions(text, interest);
    let rest = tokens.skip(i + 1);
    let at = places[i];
    lemma_place_of_token(text, interest, i);
    if marker_at(marker, tokens[i], rest) {
        assert forall|k: int| 0 <= k < marker.len() implies at + k < text.len() && text[at + k]
            == marker[k] by {
            lemma_text_follows_tokens(text, interest, marker, i, k);
        }
        lemma_text_follows_tokens(text, interest, marker, i, marker.len() - 1);
        assert(text.subrange(at, at + marker.len()) =~= marker);
        assert(text_holds(text, at, marker));
    }
    if marker.len() > 0 && unbroken(marker) && text_holds(text, at, marker) {
        assert(text.subrange(at, at + marker.len())[0] == text[at]);
        lemma_columns_follow_text(text, interest, marker, i, marker.len() - 1);
        assert forall|k: int| 1 <= k < marker.len() implies (#[trigger] rest[k - 1]).0 == marker[k]
            && rest[k - 1].1 == tokens[i].1 + k by {
            lemma_columns_follow_text(text, interest, marker, i, k);
            assert(rest[k - 1] == tokens[i + k]);
        }
        assert(marker_at(marker, tokens[i], rest));
    }
}

/// Every byte of every marker of the rules is among the bytes that the
/// tokenizer is asked to hand on.
pub proof fn lemma_marker_bytes(rules: Seq<RuleView>, r: int)
    requires
        0 <= r < rules.len(),
    ensures
        forall|x: int|
            0 <= x < rules[r].open.len() ==> is_token_byte(
                #[trigger] rules[r].open[x],
                marker_bytes(rules),
            ),
        forall|x: int|
            0 <= x < rules[r].close.len() ==> is_token_byte(
                #[trigger] rules[r].close[x],
                marker_bytes(rules),
            ),
    decreases rules.len(),
{
    let all = marker_bytes(rules);
    let last = rules.last();
    let earlier = marker_bytes(rules.drop_last());
    if r == rules.len() - 1 {
        assert forall|x: int| 0 <= x < last.open.len() implies is_token_byte(
            #[trigger] rules[r].open[x],
            all,
        ) by {
            assert(all[earlier.len() + x] == last.open[x]);
        }
        assert forall|x: int| 0 <= x < last.close.len() implies is_token_byte(
            #[trigger] rules[r].close[x],
            all,
        ) by {
            assert(all[earlier.len() + last.open.len() + x] == last.close[x]);
        }
    } else {
        lemma_marker_bytes(rules.drop_last(), r);
        assert(rules.drop_last()[r] == rules[r]);
        assert forall|b: u8| earlier.contains(b) implies all.contains(b) by {
            let k = choose|k: int| 0 <= k < earlier.len() && earlier[k] == b;
            assert(all[k] == b);
        }
    }
}

/// Whether a line of text holds the marker of a match at the column of the
/// match.
pub open spec fn stands_in(m: MatchView, line: Seq<u8>) -> bool {
    &&& m.len() >= 1
    &&& text_holds(line, m.col as int, m.token.marker(m.kind))
}

/// Whether a line of text holds the marker of each of the matches at its
/// column.
pub open spec fn all_stand_in(matches: Seq<MatchView>, line: Seq<u8>) -> bool {
    forall|k: int| 0 <= k < matches.len() ==> stands_in(#[trigger] matches[k], line)
}

/// The match that a step emits is a marker of one of the rules, and the
/// marker stands at the token of the step.
proof fn lemma_step_emits_marker(
    rules: Seq<RuleView>,
    state: StateView,
    token: CharPos,
    rest: Seq<CharPos>,
    escaped: bool,
) -> (r: int)
    ensures
        step_spec(rules, state, token, rest, escaped).emitted matches Some(m) ==> {
            let marker = m.token.marker(m.kind);
            &&& 0 <= r < rules.len()
            &&& marker == rules[r].open || marker == rules[r].close
            &&& marker_at(marker, token, rest)
            &&& m.col == token.1
        },
{
    lemma_first_firing(rules, token, rest, 0);
    lemma_first_closer(rules, state, 0);
    let outcome = step_spec(rules, state, token, rest, escaped);
    if escaped {
        0
    } else {
        match state {
            StateView::Normal => match super::matcher::first_firing(rules, token, rest, 0) {
                Some(i) => i,
                None => 0,
            },
            StateView::InString(_) => 0,
            StateView::InBlockString(_) => 0,
            StateView::InLineComment => 0,
            _ => match super::matcher::first_closer(rules, state, 0) {
                Some(i) => i,
                None => 0,
            },
        }
    }
}

/// In a text without a line break the column of a place is the place.
proof fn lemma_column_is_place(text: Seq<u8>, at: int)
    requires
        unbroken(text),
        0 <= at <= text.len(),
    ensures
        column_at(text, at) == at,
{
    lemma_column_in_line(text, 0, at);
}

/// The scan of the tokens of one line from the token `i` on: the matches
/// that it adds stand in the line.
#[verifier::rlimit(50)]
proof fn lemma_run_in_line(
    rules: Seq<RuleView>,
    text: Seq<u8>,
    i: int,
    state: StateView,
    escape: Option<usize>,
    line: Seq<MatchView>,
)
    requires
        text.len() <= usize::MAX,
        unbroken(text),
        0 <= i <= tokens_of(text, marker_bytes(rules)).len(),
        all_stand_in(line, text),
    ensures
        ({
            let found = run(
                rules,
                tokens_of(text, marker_bytes(rules)).skip(i),
                state,
                escape,
                line,
            );
            &&& found.lines.len() == 1
            &&& all_stand_in(found.lines[0], text)
        }),
    decreases tokens_of(text, marker_bytes(rules)).len() - i,
{
    let interest = marker_bytes(rules);
    let tokens = tokens_of(text, interest);
    let here = tokens.skip(i);
    if i < tokens.len() {
        let token = tokens[i];
        let rest = tokens.skip(i + 1);
        assert(here[0] == token);
        assert(here.drop_first() == rest);
        lemma_place_of_token(text, interest, i);
        let at = token_positions(text, interest)[i];
        lemma_column_is_place(text, at);
        assert(token.0 != NEWLINE);
        if token.0 == BACKSLASH {
            let next = if escapes(escape, token.1) {
                None
            } else {
                Some(token.1)
            };
            lemma_run_in_line(rules, text, i + 1, state, next, line);
        } else {
            let escaped = escapes(escape, token.1);
            let outcome = step_spec(rules, state, token, rest, escaped);
            lemma_step_shape(rules, state, token, rest, escaped);
            let taken = outcome.consumed as int;
            assert(rest.skip(taken) == tokens.skip(i + 1 + taken));
            let line_after = match outcome.emitted {
                Some(m) => line.push(m),
                None => line,
            };
            if outcome.emitted is Some {
                let m = outcome.emitted->0;
                let r = lemma_step_emits_marker(rules, state, token, rest, escaped);
                lemma_marker_bytes(rules, r);
                let marker = m.token.marker(m.kind);
                lemma_marker_at_is_text(text, interest, marker, i);
                assert(stands_in(m, text));
                assert forall|k: int| 0 <= k < line_after.len() implies stands_in(
                    #[trigger] line_after[k],
                    text,
                ) by {
                    if k < line.len() {
                        assert(line_after[k] == line[k]);
                    }
                }
            }
            lemma_run_in_line(rules, text, i + 1 + taken, outcome.state, None, line_after);
        }
    }
}

/// Where the last line of a text begins: after its last line break.
proof fn lemma_last_line(text: Seq<u8>, k: int) -> (p: int)
    requires
        0 <= k <= text.len(),
        forall|q: int| k <= q < text.len() ==> #[trigger] text[q] != NEWLINE,
    ensures
        -1 <= p < k,
        p >= 0 ==> text[p] == NEWLINE,
        forall|q: int| p < q < text.len() ==> #[trigger] text[q] != NEWLINE,
    decreases k,
{
    if k == 0 {
        -1
    } else if text[k - 1] == NEWLINE {
        k - 1
    } else {
        lemma_last_line(text, k - 1)
    }
}

/// Every match of the scan of a text stands in the text: the line of the
/// match holds the bytes of the match's marker at the column of the match.
pub proof fn lemma_matches_stand_in_text(
    rules: Seq<RuleView>,
    text: Seq<u8>,
    state: StateView,
)
    requires
        text.len() <= usize::MAX,
    ensures
        scan_spec(rules, text, state).lines.len() == split_lines(text).len(),
        forall|l: int|
            0 <= l < split_lines(text).len() ==> all_stand_in(
                #[trigger] scan_spec(rules, text, state).lines[l],
                split_lines(text)[l],
            ),
    decreases text.len(),
{
    let p = lemma_last_line(text, text.len() as int);
    let found = scan_spec(rules, text, state);
    if p < 0 {
        assert(unbroken(text));
        lemma_split_plain_line(text);
        assert(tokens_of(text, marker_bytes(rules)).skip(0) == tokens_of(
            text,
            marker_bytes(rules),
        ));
        lemma_run_in_line(rules, text, 0, state, None, Seq::empty());
    } else {
        let first = text.take(p);
        let last = text.skip(p + 1);
        assert(text =~= broken(first, last));
        assert(unbroken(last)) by {
            assert forall|k: int| 0 <= k < last.len() implies #[trigger] last[k] != NEWLINE by {
                assert(last[k] == text[p + 1 + k]);
            }
        }
        lemma_scan_broken(rules, first, last, state);
        lemma_split_lines_broken(first, last);
        lemma_split_plain_line(last);
        lemma_matches_stand_in_text(rules, first, state);
        let head = scan_spec(rules, first, state);
        let handed = head.states.last();
        assert(tokens_of(last, marker_bytes(rules)).skip(0) == tokens_of(
            last,
            marker_bytes(rules),
        ));
        lemma_run_in_line(rules, last, 0, handed, None, Seq::empty());
        let tail = scan_spec(rules, last, handed);
        assert forall|l: int| 0 <= l < split_lines(text).len() implies all_stand_in(
            #[trigger] found.lines[l],
            split_lines(text)[l],
        ) by {
            if l < head.lines.len() {
                assert(found.lines[l] == head.lines[l]);
                assert(split_lines(text)[l] == split_lines(first)[l]);
            } else {
                assert(found.lines[l] == tail.lines[l - head.lines.len()]);
            }
        }
    }
}

} // verus!

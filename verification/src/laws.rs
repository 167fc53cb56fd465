//! What holds of every parsed buffer.

use vstd::prelude::*;
use crate::balance::{
    corresponds, depth, lemma_well_formed_heights, lemma_well_formed_pair, well_formed,
};
use crate::buffer::{parsed, BufferView};
use crate::cursor::{
    first_height, first_partner, is_partner, lemma_cursor_splits, lemma_first_covering,
    lemma_first_partner_ahead, lemma_first_partner_behind, lemma_located_index,
    lemma_located_len, lemma_select_sorted, located, select, Side,
};
use crate::nesting::{
    lemma_closer_without_opener, lemma_opener_without_closer, lemma_resolve_delimiters,
    lemma_resolved_by_matches, lemma_resolved_idempotent, resolved, resolved_heights,
};
use crate::pairs::{deeper, lemma_depths_come_in_pairs, resolved_partners};
use crate::parser::indent::indent_levels_spec;
use crate::parser::matcher::{Kind, MatchView, MatchWithLineView, RuleView, TokenView};
use crate::parser::markers::{all_stand_in, lemma_matches_stand_in_text, stands_in};
use crate::parser::parse::{lemma_scan_count, scan_spec, StateView};
use crate::parser::parts::{
    carried, indent_lines, lemma_scan_lines_add, lemma_scan_lines_count, plain, scan_lines,
};
use crate::parser::text::{joined, lemma_split_lines_len, split_lines};
use crate::stream::{lemma_position_exists, lemma_stream_index, offset, same_shape, stream_of};

verus! {

/// A match that is no delimiter never has a depth: not a comment marker, and
/// not a span marker.
pub proof fn lemma_only_delimiters_have_depth(buffer: BufferView, line: int, index: int)
    requires
        buffer.wf(),
        0 <= line < buffer.lines.len(),
        0 <= index < buffer.lines[line].len(),
        !buffer.lines[line][index].is_delimiter(),
    ensures
        buffer.lines[line][index].stack_height is None,
{
    let stream = stream_of(buffer.lines);
    lemma_stream_index(buffer.lines, line, index);
    lemma_resolve_delimiters(stream, stream.len());
    assert(buffer.lines[line][index] == resolved(buffer.lines)[line][index]);
}

/// The first match with a token has that token.
pub proof fn lemma_first_partner_token(
    items: Seq<MatchWithLineView>,
    token: TokenView,
    stack_height: Option<nat>,
)
    ensures
        first_partner(items, token, stack_height) matches Some(m) ==> m.token == token
            && m.stack_height == stack_height && items.contains(m),
    decreases items.len(),
{
    if items.len() > 0 {
        if items[0].token == token && items[0].stack_height == stack_height {
            assert(items[0] == items[0]);
        } else {
            lemma_first_partner_token(items.drop_first(), token, stack_height);
            if first_partner(items, token, stack_height) is Some {
                let m = first_partner(items, token, stack_height)->0;
                let i = choose|i: int|
                    0 <= i < items.drop_first().len() && items.drop_first()[i] == m;
                assert(items[i + 1] == m);
            }
        }
    }
}

/// No comment marker is ever part of a pair, and both ends of a pair have
/// the same token and the same depth.
pub proof fn lemma_pairs_hold_no_comments(buffer: BufferView, line: nat, col: nat)
    requires
        buffer.wf(),
    ensures
        buffer.pair_at(line, col) matches Some((opener, closer)) ==> {
            &&& !(opener.token is LineComment) && !(opener.token is BlockComment)
            &&& closer.token == opener.token
            &&& closer.stack_height == opener.stack_height
            &&& opener.token is Delimiter ==> opener.stack_height is Some
        },
{
    if buffer.match_at(line, col) is Some {
        let m = buffer.match_at(line, col)->0;
        lemma_first_partner_token(
            select(located(buffer.lines), Side::After, line, m.col),
            m.token,
            m.stack_height,
        );
        lemma_first_partner_token(buffer.matches_to(line, m.col), m.token, m.stack_height);
    }
}

/// Parsing a text and then parsing the same text anew over the whole buffer
/// leaves the buffer as the first parse made it: from the first line, or
/// from no line given, up to the last line or beyond, or to no line given.
pub proof fn lemma_reparse_unchanged(
    rules: Seq<RuleView>,
    text: Seq<u8>,
    tab_width: u8,
    start_line: Option<usize>,
    old_end_line: Option<usize>,
    new_end_line: Option<usize>,
)
    requires
        start_line is None || start_line == Some(0usize),
        old_end_line is Some ==> old_end_line->0 >= parsed(
            rules,
            text,
            StateView::Normal,
            tab_width,
        ).lines.len(),
        new_end_line is Some ==> new_end_line->0 >= parsed(
            rules,
            text,
            StateView::Normal,
            tab_width,
        ).lines.len(),
    ensures
        parsed(rules, text, StateView::Normal, tab_width).reparsed(
            rules,
            text,
            start_line,
            old_end_line,
            new_end_line,
        ) == parsed(rules, text, StateView::Normal, tab_width),
{
    let first = parsed(rules, text, StateView::Normal, tab_width);
    let fresh = scan_spec(rules, text, StateView::Normal);
    let widths = indent_levels_spec(text, tab_width);
    lemma_scan_count(rules, text, StateView::Normal);
    lemma_split_lines_len(text);
    lemma_resolved_idempotent(fresh.lines);
    let n = first.lines.len() as int;
    assert(first.lines.take(0) + fresh.lines.take(n) + first.lines.skip(n) =~= fresh.lines);
    assert(first.states.take(0) + fresh.states.take(n) + first.states.skip(n) =~= fresh.states);
    assert(first.indentation.take(0) + widths.take(n) + first.indentation.skip(n) =~= widths);
}

/// The depth that a match of a well-formed buffer carries is the resolved
/// depth of its position in the stream of all matches.
pub proof fn lemma_depths_are_resolved(buffer: BufferView, line: int, index: int)
    requires
        buffer.wf(),
        0 <= line < buffer.lines.len(),
        0 <= index < buffer.lines[line].len(),
    ensures
        0 <= offset(buffer.lines, line) + index < stream_of(buffer.lines).len(),
        located(buffer.lines).len() == stream_of(buffer.lines).len(),
        stream_of(buffer.lines)[offset(buffer.lines, line) + index] == buffer.lines[line][index],
        located(buffer.lines)[offset(buffer.lines, line) + index]
            == buffer.lines[line][index].on_line(line as nat),
        buffer.lines[line][index].stack_height == resolved_heights(stream_of(buffer.lines))[offset(
            buffer.lines,
            line,
        ) + index],
{
    lemma_located_index(buffer.lines, line, index);
    assert(buffer.lines[line][index] == resolved(buffer.lines)[line][index]);
}

/// A delimiter without a depth has no pair: the query on any column that it
/// covers returns nothing.
pub proof fn lemma_unmatched_has_no_pair(buffer: BufferView, line: int, index: int, col: nat)
    requires
        buffer.wf(),
        0 <= line < buffer.lines.len(),
        0 <= index < buffer.lines[line].len(),
        buffer.lines[line][index].is_delimiter(),
        buffer.lines[line][index].stack_height is None,
        buffer.lines[line][index].covers(col),
    ensures
        buffer.match_at(line as nat, col) == Some(buffer.lines[line][index]),
        buffer.pair_at(line as nat, col) is None,
{
    lemma_first_covering(buffer.lines[line], col, 0, index);
}

/// A closing delimiter has no depth where no opening delimiter of its pair
/// stands anywhere before it in the buffer.
pub proof fn lemma_stray_closer_is_unmatched(buffer: BufferView, line: int, index: int)
    requires
        buffer.wf(),
        0 <= line < buffer.lines.len(),
        0 <= index < buffer.lines[line].len(),
        buffer.lines[line][index].closes(),
        forall|i: int|
            0 <= i < offset(buffer.lines, line) + index && (#[trigger] stream_of(
                buffer.lines,
            )[i]).opens() ==> stream_of(buffer.lines)[i].token
                != buffer.lines[line][index].token,
    ensures
        buffer.lines[line][index].stack_height is None,
{
    let stream = stream_of(buffer.lines);
    lemma_depths_are_resolved(buffer, line, index);
    lemma_closer_without_opener(stream, offset(buffer.lines, line) + index, stream.len());
}

/// An opening delimiter has no depth where no closing delimiter of its pair
/// stands anywhere after it in the buffer.
pub proof fn lemma_stray_opener_is_unmatched(buffer: BufferView, line: int, index: int)
    requires
        buffer.wf(),
        0 <= line < buffer.lines.len(),
        0 <= index < buffer.lines[line].len(),
        buffer.lines[line][index].opens(),
        forall|j: int|
            offset(buffer.lines, line) + index < j < stream_of(buffer.lines).len() && (#[trigger] stream_of(
                buffer.lines,
            )[j]).closes() ==> stream_of(buffer.lines)[j].token
                != buffer.lines[line][index].token,
    ensures
        buffer.lines[line][index].stack_height is None,
{
    let stream = stream_of(buffer.lines);
    lemma_depths_are_resolved(buffer, line, index);
    lemma_opener_without_closer(stream, offset(buffer.lines, line) + index, stream.len());
}

/// What the searches from the two delimiters of a pair find, in a buffer
/// whose delimiters are well-formed: each the other.
#[verifier::rlimit(50)]
proof fn lemma_well_formed_partners(
    buffer: BufferView,
    open_line: int,
    open_index: int,
    close_line: int,
    close_index: int,
)
    requires
        buffer.wf(),
        well_formed(stream_of(buffer.lines)),
        0 <= open_line < buffer.lines.len(),
        0 <= open_index < buffer.lines[open_line].len(),
        0 <= close_line < buffer.lines.len(),
        0 <= close_index < buffer.lines[close_line].len(),
        corresponds(
            stream_of(buffer.lines),
            offset(buffer.lines, open_line) + open_index,
            offset(buffer.lines, close_line) + close_index,
        ),
    ensures
        ({
            let opener = buffer.lines[open_line][open_index];
            let closer = buffer.lines[close_line][close_index];
            let nesting = depth(stream_of(buffer.lines), offset(buffer.lines, open_line) + open_index);
            &&& nesting >= 0
            &&& opener.opens()
            &&& closer.closes()
            &&& opener.token == closer.token
            &&& opener.stack_height == Some(nesting as nat)
            &&& closer.stack_height == Some(nesting as nat)
            &&& first_partner(
                select(located(buffer.lines), Side::After, open_line as nat, opener.col),
                opener.token,
                opener.stack_height,
            ) == Some(closer.on_line(close_line as nat))
            &&& first_partner(
                buffer.matches_to(close_line as nat, closer.col),
                closer.token,
                closer.stack_height,
            ) == Some(opener.on_line(open_line as nat))
        }),
{
    let lines = buffer.lines;
    let stream = stream_of(lines);
    let items = located(lines);
    let i = offset(lines, open_line) + open_index;
    let j = offset(lines, close_line) + close_index;
    let opener = lines[open_line][open_index];
    let nesting = depth(stream, i);
    let height = Some(nesting as nat);
    lemma_depths_are_resolved(buffer, open_line, open_index);
    lemma_depths_are_resolved(buffer, close_line, close_index);
    lemma_well_formed_pair(stream, i, j);
    lemma_select_sorted(lines, open_line, open_index);
    lemma_select_sorted(lines, close_line, close_index);
    assert forall|x: int| i < x < j implies !is_partner(#[trigger] items[x], opener.token, height) by {
        let place = lemma_position_exists(lines, x);
        lemma_depths_are_resolved(buffer, place.0, place.1);
        assert(resolved_heights(stream)[x] != height);
    }
    lemma_first_partner_ahead(items, i + 1, j, opener.token, height);
    lemma_first_partner_behind(items, j, i, opener.token, height);
}

/// In a buffer whose delimiters are well-formed, the two delimiters of a
/// pair carry the same depth, their nesting depth counted from zero, and the
/// pair query on either of them returns the two, the opening one first.
pub proof fn lemma_well_formed_pairs(
    buffer: BufferView,
    open_line: int,
    open_index: int,
    close_line: int,
    close_index: int,
)
    requires
        buffer.wf(),
        well_formed(stream_of(buffer.lines)),
        0 <= open_line < buffer.lines.len(),
        0 <= open_index < buffer.lines[open_line].len(),
        0 <= close_line < buffer.lines.len(),
        0 <= close_index < buffer.lines[close_line].len(),
        corresponds(
            stream_of(buffer.lines),
            offset(buffer.lines, open_line) + open_index,
            offset(buffer.lines, close_line) + close_index,
        ),
    ensures
        ({
            let opener = buffer.lines[open_line][open_index];
            let closer = buffer.lines[close_line][close_index];
            let nesting = depth(stream_of(buffer.lines), offset(buffer.lines, open_line) + open_index);
            let pair = Some((opener.on_line(open_line as nat), closer.on_line(close_line as nat)));
            &&& nesting >= 0
            &&& opener.stack_height == Some(nesting as nat)
            &&& closer.stack_height == Some(nesting as nat)
            &&& forall|col: nat| #[trigger]
                opener.covers(col) ==> buffer.pair_at(open_line as nat, col) == pair
            &&& forall|col: nat| #[trigger]
                closer.covers(col) ==> buffer.pair_at(close_line as nat, col) == pair
        }),
{
    let lines = buffer.lines;
    let opener = lines[open_line][open_index];
    let closer = lines[close_line][close_index];
    lemma_well_formed_partners(buffer, open_line, open_index, close_line, close_index);
    assert forall|col: nat| #[trigger] opener.covers(col) implies buffer.pair_at(
        open_line as nat,
        col,
    ) == Some((opener.on_line(open_line as nat), closer.on_line(close_line as nat))) by {
        lemma_first_covering(lines[open_line], col, 0, open_index);
        assert(buffer.match_at(open_line as nat, col) == Some(opener));
    }
    assert forall|col: nat| #[trigger] closer.covers(col) implies buffer.pair_at(
        close_line as nat,
        col,
    ) == Some((opener.on_line(open_line as nat), closer.on_line(close_line as nat))) by {
        lemma_first_covering(lines[close_line], col, 0, close_index);
        assert(buffer.match_at(close_line as nat, col) == Some(closer));
    }
}

/// The scan of three runs of lines, one after the other, in its three
/// parts.
#[verifier::rlimit(50)]
proof fn lemma_three_parts(
    rules: Seq<RuleView>,
    a: Seq<Seq<u8>>,
    b: Seq<Seq<u8>>,
    c: Seq<Seq<u8>>,
    tab_width: u8,
)
    requires
        plain(a),
        plain(b),
        plain(c),
    ensures
        ({
            let whole = scan_lines(rules, a + b + c, StateView::Normal);
            let first = scan_lines(rules, a, StateView::Normal);
            let handed = carried(rules, a, StateView::Normal);
            let second = scan_lines(rules, b, handed);
            let third = scan_lines(rules, c, carried(rules, a + b, StateView::Normal));
            &&& whole.lines == first.lines + second.lines + third.lines
            &&& whole.states == first.states + second.states + third.states
            &&& indent_lines(a + b + c, tab_width) == indent_lines(a, tab_width) + indent_lines(
                b,
                tab_width,
            ) + indent_lines(c, tab_width)
            &&& first.lines.len() == a.len()
            &&& first.states.len() == a.len()
            &&& indent_lines(a, tab_width).len() == a.len()
            &&& second.lines.len() == b.len()
            &&& second.states.len() == b.len()
            &&& indent_lines(b, tab_width).len() == b.len()
            &&& third.lines.len() == c.len()
            &&& third.states.len() == c.len()
            &&& indent_lines(c, tab_width).len() == c.len()
            &&& a.len() > 0 ==> handed == first.states.last()
            &&& a.len() == 0 ==> handed == StateView::Normal
        }),
{
    let handed = carried(rules, a, StateView::Normal);
    lemma_scan_lines_add(rules, a, b, StateView::Normal, tab_width);
    lemma_scan_lines_add(rules, a + b, c, StateView::Normal, tab_width);
    lemma_scan_lines_count(rules, a, StateView::Normal, tab_width);
    lemma_scan_lines_count(rules, b, handed, tab_width);
    lemma_scan_lines_count(rules, c, carried(rules, a + b, StateView::Normal), tab_width);
}

/// The first and the last of three parts, taken back out of the whole.
proof fn lemma_parts<T>(p: Seq<T>, m: Seq<T>, q: Seq<T>)
    ensures
        (p + m + q).take(p.len() as int) == p,
        (p + m + q).skip((p.len() + m.len()) as int) == q,
{
    assert((p + m + q).take(p.len() as int) =~= p);
    assert((p + m + q).skip((p.len() + m.len()) as int) =~= q);
}

/// Putting new lines in the place of the middle ones of resolved lines and
/// resolving again gives what resolving the new lines as a whole gives.
#[verifier::rlimit(50)]
proof fn lemma_resolved_splice(
    first: Seq<Seq<MatchView>>,
    old_second: Seq<Seq<MatchView>>,
    new_second: Seq<Seq<MatchView>>,
    third: Seq<Seq<MatchView>>,
)
    ensures
        resolved(
            resolved(first + old_second + third).take(first.len() as int) + new_second + resolved(
                first + old_second + third,
            ).skip((first.len() + old_second.len()) as int),
        ) == resolved(first + new_second + third),
{
    let before = first + old_second + third;
    let old = resolved(before);
    let merged = old.take(first.len() as int) + new_second + old.skip(
        (first.len() + old_second.len()) as int,
    );
    let target = first + new_second + third;
    assert(same_shape(merged, target));
    assert forall|l: int, k: int|
        0 <= l < merged.len() && 0 <= k < merged[l].len()
    implies (#[trigger] merged[l][k]).with_height(None) == target[l][k].with_height(None) by {
        if l < first.len() {
            assert(merged[l] == old[l]);
            assert(before[l] == target[l]);
        } else if l < first.len() + new_second.len() {
        } else {
            let at = l - new_second.len() + old_second.len();
            assert(merged[l] == old[at]);
            assert(before[at] == target[l]);
        }
    }
    lemma_resolved_by_matches(merged, target);
}

/// What parsing a range anew makes of a buffer that is given in three
/// parts, the middle one being the range.
#[verifier::rlimit(50)]
proof fn lemma_reparsed_of_parts(
    rules: Seq<RuleView>,
    text: Seq<u8>,
    tab_width: u8,
    lines: (Seq<Seq<MatchView>>, Seq<Seq<MatchView>>, Seq<Seq<MatchView>>),
    states: (Seq<StateView>, Seq<StateView>, Seq<StateView>),
    widths: (Seq<u8>, Seq<u8>, Seq<u8>),
    new_end_line: Option<usize>,
)
    requires
        states.0.len() == lines.0.len(),
        states.1.len() == lines.1.len(),
        widths.0.len() == lines.0.len(),
        widths.1.len() == lines.1.len(),
        lines.0.len() + lines.1.len() <= usize::MAX,
    ensures
        ({
            let old = BufferView {
                lines: resolved(lines.0 + lines.1 + lines.2),
                states: states.0 + states.1 + states.2,
                indentation: widths.0 + widths.1 + widths.2,
                tab_width,
            };
            let start = lines.0.len() as int;
            let handed = old.state_before(start);
            let fresh = scan_spec(rules, text, handed);
            let count = crate::buffer::range_count(fresh.lines.len(), start, new_end_line);
            &&& handed == if start > 0 {
                states.0.last()
            } else {
                StateView::Normal
            }
            &&& old.reparsed(
                rules,
                text,
                Some(lines.0.len() as usize),
                Some((lines.0.len() + lines.1.len()) as usize),
                new_end_line,
            ) == (BufferView {
                lines: resolved(lines.0 + fresh.lines.take(count) + lines.2),
                states: states.0 + fresh.states.take(count) + states.2,
                indentation: widths.0 + indent_levels_spec(text, tab_width).take(count)
                    + widths.2,
                tab_width,
            })
        }),
{
    let old_lines = resolved(lines.0 + lines.1 + lines.2);
    let old = BufferView {
        lines: old_lines,
        states: states.0 + states.1 + states.2,
        indentation: widths.0 + widths.1 + widths.2,
        tab_width,
    };
    let start = lines.0.len() as int;
    let end = (lines.0.len() + lines.1.len()) as int;
    lemma_resolved_idempotent(lines.0 + lines.1 + lines.2);
    assert(crate::buffer::range_start(old.lines.len(), Some(lines.0.len() as usize)) == start);
    assert(crate::buffer::range_end(
        old.lines.len(),
        start,
        Some((lines.0.len() + lines.1.len()) as usize),
    ) == end);
    let handed = old.state_before(start);
    if start > 0 {
        assert(old.states[start - 1] == states.0.last());
    }
    let fresh = scan_spec(rules, text, handed);
    let count = crate::buffer::range_count(fresh.lines.len(), start, new_end_line);
    lemma_parts(states.0, states.1, states.2);
    lemma_parts(widths.0, widths.1, widths.2);
    lemma_resolved_splice(lines.0, lines.1, fresh.lines.take(count), lines.2);
}

/// Parsing anew only the lines that an edit has changed gives the same
/// buffer as parsing the whole new text, where the edit leaves the state in
/// which the lines after it begin as it was.
///
/// The old text is the lines `before`, `old_mid` and `after`; the edit puts
/// `new_mid` in the place of `old_mid`.
#[verifier::rlimit(50)]
pub proof fn lemma_reparse_range_is_full_parse(
    rules: Seq<RuleView>,
    before: Seq<Seq<u8>>,
    old_mid: Seq<Seq<u8>>,
    new_mid: Seq<Seq<u8>>,
    after: Seq<Seq<u8>>,
    tab_width: u8,
    new_end_line: Option<usize>,
)
    requires
        plain(before),
        plain(old_mid),
        plain(new_mid),
        plain(after),
        (before + old_mid + after).len() > 0,
        (before + new_mid + after).len() > 0,
        before.len() + old_mid.len() <= usize::MAX,
        before.len() + new_mid.len() <= usize::MAX,
        new_end_line == Some((before.len() + new_mid.len()) as usize) || (new_end_line is None
            && new_mid.len() > 0),
        after.len() > 0 ==> carried(rules, before + new_mid, StateView::Normal) == carried(
            rules,
            before + old_mid,
            StateView::Normal,
        ),
    ensures
        parsed(rules, joined(before + old_mid + after), StateView::Normal, tab_width).reparsed(
            rules,
            joined(new_mid),
            Some(before.len() as usize),
            Some((before.len() + old_mid.len()) as usize),
            new_end_line,
        ) == parsed(rules, joined(before + new_mid + after), StateView::Normal, tab_width),
{
    let normal = StateView::Normal;
    let old = parsed(rules, joined(before + old_mid + after), normal, tab_width);
    let new = parsed(rules, joined(before + new_mid + after), normal, tab_width);
    let first = scan_lines(rules, before, normal);
    let handed = carried(rules, before, normal);
    let old_second = scan_lines(rules, old_mid, handed);
    let new_second = scan_lines(rules, new_mid, handed);
    let third = scan_lines(rules, after, carried(rules, before + old_mid, normal));
    let w1 = indent_lines(before, tab_width);
    let w2 = indent_lines(old_mid, tab_width);
    let w2_new = indent_lines(new_mid, tab_width);
    let w3 = indent_lines(after, tab_width);
    lemma_three_parts(rules, before, old_mid, after, tab_width);
    lemma_three_parts(rules, before, new_mid, after, tab_width);
    assert(third == scan_lines(rules, after, carried(rules, before + new_mid, normal)));
    assert(old == (BufferView {
        lines: resolved(first.lines + old_second.lines + third.lines),
        states: first.states + old_second.states + third.states,
        indentation: w1 + w2 + w3,
        tab_width,
    }));
    assert(new == (BufferView {
        lines: resolved(first.lines + new_second.lines + third.lines),
        states: first.states + new_second.states + third.states,
        indentation: w1 + w2_new + w3,
        tab_width,
    }));
    lemma_reparsed_of_parts(
        rules,
        joined(new_mid),
        tab_width,
        (first.lines, old_second.lines, third.lines),
        (first.states, old_second.states, third.states),
        (w1, w2, w3),
        new_end_line,
    );
    let fresh = scan_spec(rules, joined(new_mid), handed);
    let count = new_mid.len() as int;
    assert(fresh.lines.take(count) == new_second.lines && fresh.states.take(count)
        == new_second.states && indent_levels_spec(joined(new_mid), tab_width).take(count)
        == w2_new) by {
        lemma_scan_count(rules, joined(new_mid), handed);
        lemma_split_lines_len(joined(new_mid));
        if new_mid.len() > 0 {
            assert(fresh.lines.take(count) == fresh.lines);
            assert(fresh.states.take(count) == fresh.states);
            assert(indent_levels_spec(joined(new_mid), tab_width).take(count)
                == indent_levels_spec(joined(new_mid), tab_width));
        }
    }
}

/// What the search from a match with a depth finds: its partner.
#[verifier::rlimit(50)]
proof fn lemma_partner_is_found(buffer: BufferView, line: int, index: int) -> (partner: (int, int))
    requires
        buffer.wf(),
        0 <= line < buffer.lines.len(),
        0 <= index < buffer.lines[line].len(),
        buffer.lines[line][index].stack_height is Some,
    ensures
        0 <= partner.0 < buffer.lines.len(),
        0 <= partner.1 < buffer.lines[partner.0].len(),
        ({
            let m = buffer.lines[line][index];
            let other = buffer.lines[partner.0][partner.1];
            &&& other.token == m.token
            &&& other.stack_height == m.stack_height
            &&& m.opens() || m.closes()
            &&& m.opens() ==> other.closes() && first_partner(
                select(located(buffer.lines), Side::After, line as nat, m.col),
                m.token,
                m.stack_height,
            ) == Some(other.on_line(partner.0 as nat))
            &&& m.closes() ==> other.opens() && first_partner(
                buffer.matches_to(line as nat, m.col),
                m.token,
                m.stack_height,
            ) == Some(other.on_line(partner.0 as nat))
        }),
{
    let lines = buffer.lines;
    let stream = stream_of(lines);
    let items = located(lines);
    let i = offset(lines, line) + index;
    let m = lines[line][index];
    lemma_depths_are_resolved(buffer, line, index);
    lemma_depths_come_in_pairs(stream, i);
    let j = resolved_partners(stream)[i]->0;
    let partner = lemma_position_exists(lines, j);
    lemma_depths_are_resolved(buffer, partner.0, partner.1);
    lemma_select_sorted(lines, line, index);
    assert forall|x: int| (i < x < j || j < x < i) implies !is_partner(
        #[trigger] items[x],
        m.token,
        m.stack_height,
    ) by {
        let place = lemma_position_exists(lines, x);
        lemma_depths_are_resolved(buffer, place.0, place.1);
        assert(deeper(resolved_heights(stream)[x], m.stack_height->0 as int));
    }
    if i < j {
        lemma_first_partner_ahead(items, i + 1, j, m.token, m.stack_height);
    } else {
        lemma_first_partner_behind(items, i, j, m.token, m.stack_height);
    }
    partner
}

/// A match with a depth has a pair: the pair query on any column that the
/// match covers returns the match and its partner, the opening one first.
/// The partner is of the same token and depth.
pub proof fn lemma_matched_has_pair(buffer: BufferView, line: int, index: int) -> (partner: (
    int,
    int,
))
    requires
        buffer.wf(),
        0 <= line < buffer.lines.len(),
        0 <= index < buffer.lines[line].len(),
        buffer.lines[line][index].stack_height is Some,
    ensures
        0 <= partner.0 < buffer.lines.len(),
        0 <= partner.1 < buffer.lines[partner.0].len(),
        ({
            let m = buffer.lines[line][index];
            let other = buffer.lines[partner.0][partner.1];
            let pair = if m.opens() {
                Some((m.on_line(line as nat), other.on_line(partner.0 as nat)))
            } else {
                Some((other.on_line(partner.0 as nat), m.on_line(line as nat)))
            };
            &&& other.token == m.token
            &&& other.stack_height == m.stack_height
            &&& m.opens() <==> other.closes()
            &&& m.closes() <==> other.opens()
            &&& forall|col: nat| #[trigger] m.covers(col) ==> buffer.pair_at(line as nat, col) == pair
        }),
{
    let m = buffer.lines[line][index];
    let partner = lemma_partner_is_found(buffer, line, index);
    assert forall|col: nat| #[trigger] m.covers(col) implies buffer.match_at(line as nat, col)
        == Some(m) by {
        lemma_first_covering(buffer.lines[line], col, 0, index);
    }
    partner
}

/// What a position of the stream holds in a buffer whose delimiters are
/// well-formed: a delimiter with the depth of its pair, or a match without a
/// depth.
proof fn lemma_well_formed_position(buffer: BufferView, x: int)
    requires
        buffer.wf(),
        well_formed(stream_of(buffer.lines)),
        0 <= x < located(buffer.lines).len(),
    ensures
        located(buffer.lines).len() == stream_of(buffer.lines).len(),
        ({
            let stream = stream_of(buffer.lines);
            let m = located(buffer.lines)[x];
            &&& m.kind == stream[x].kind
            &&& depth(stream, x) >= 0
            &&& depth(stream, x + 1) >= 0
            &&& stream[x].opens() ==> m.stack_height == Some(depth(stream, x) as nat) && depth(
                stream,
                x + 1,
            ) == depth(stream, x) + 1
            &&& stream[x].closes() ==> m.stack_height == Some(depth(stream, x + 1) as nat) && depth(
                stream,
                x + 1,
            ) == depth(stream, x) - 1
            &&& !stream[x].opens() && !stream[x].closes() ==> m.stack_height is None && depth(
                stream,
                x + 1,
            ) == depth(stream, x)
        }),
{
    let stream = stream_of(buffer.lines);
    lemma_located_len(buffer.lines);
    let place = lemma_position_exists(buffer.lines, x);
    lemma_depths_are_resolved(buffer, place.0, place.1);
    lemma_well_formed_heights(stream, x);
    lemma_resolve_delimiters(stream, stream.len());
}

/// The depth read off the matches from position `x` on, in a buffer whose
/// delimiters are well-formed: the nesting depth before `x`.
proof fn lemma_height_ahead(buffer: BufferView, x: int)
    requires
        buffer.wf(),
        well_formed(stream_of(buffer.lines)),
        0 <= x <= located(buffer.lines).len(),
        located(buffer.lines).len() == stream_of(buffer.lines).len(),
    ensures
        match first_height(located(buffer.lines).skip(x), Kind::Closing) {
            Some(height) => height == depth(stream_of(buffer.lines), x),
            None => depth(stream_of(buffer.lines), x) == 0,
        },
    decreases located(buffer.lines).len() - x,
{
    let items = located(buffer.lines);
    let rest = items.skip(x);
    if x < items.len() {
        lemma_well_formed_position(buffer, x);
        assert(rest[0] == items[x]);
        assert(rest.drop_first() == items.skip(x + 1));
        lemma_height_ahead(buffer, x + 1);
    }
}

/// The depth read off the matches before position `c`, nearest first, in a
/// buffer whose delimiters are well-formed: the nesting depth before `c`.
proof fn lemma_height_behind(buffer: BufferView, c: int)
    requires
        buffer.wf(),
        well_formed(stream_of(buffer.lines)),
        0 <= c <= located(buffer.lines).len(),
    ensures
        match first_height(located(buffer.lines).take(c).reverse(), Kind::Opening) {
            Some(height) => height == depth(stream_of(buffer.lines), c),
            None => depth(stream_of(buffer.lines), c) == 0,
        },
    decreases c,
{
    let items = located(buffer.lines);
    let back = items.take(c).reverse();
    if c > 0 {
        lemma_well_formed_position(buffer, c - 1);
        assert(back[0] == items[c - 1]);
        assert(back.drop_first() =~= items.take(c - 1).reverse());
        lemma_height_behind(buffer, c - 1);
    }
}

/// In a buffer whose delimiters are well-formed, the depth at the cursor is
/// the nesting depth there: how many more delimiters open than close among
/// the matches before the cursor.
pub proof fn lemma_well_formed_height_at(buffer: BufferView, line: nat, col: nat)
    requires
        buffer.wf(),
        well_formed(stream_of(buffer.lines)),
    ensures
        buffer.height_at(line, col) == depth(
            stream_of(buffer.lines),
            select(located(buffer.lines), Side::Before, line, col).len() as int,
        ),
{
    let c = lemma_cursor_splits(buffer.lines, line, col);
    lemma_located_len(buffer.lines);
    lemma_height_ahead(buffer, c);
    lemma_height_behind(buffer, c);
}

/// The cursor parts the matches of a buffer in two: the matches before it,
/// farthest first, and then the matches from it on are all the matches of
/// the buffer in document order.
pub proof fn lemma_cursor_parts_matches(buffer: BufferView, line: nat, col: nat)
    requires
        buffer.wf(),
    ensures
        buffer.matches_to(line, col).reverse() + buffer.matches_from(line, col) == located(
            buffer.lines,
        ),
{
    let items = located(buffer.lines);
    let c = lemma_cursor_splits(buffer.lines, line, col);
    assert(items.take(c).reverse().reverse() =~= items.take(c));
    assert(items.take(c) + items.skip(c) =~= items);
}

/// Every match of the buffer that a text parses to stands in the text: the
/// buffer has a line for each line of the text, and the line of a match holds
/// the bytes of the match's marker at the column of the match.
pub proof fn lemma_parsed_matches_stand_in_text(
    rules: Seq<RuleView>,
    text: Seq<u8>,
    state: StateView,
    tab_width: u8,
)
    requires
        text.len() <= usize::MAX,
    ensures
        parsed(rules, text, state, tab_width).lines.len() == split_lines(text).len(),
        forall|l: int|
            0 <= l < split_lines(text).len() ==> all_stand_in(
                #[trigger] parsed(rules, text, state, tab_width).lines[l],
                split_lines(text)[l],
            ),
{
    let found = scan_spec(rules, text, state);
    let lines = parsed(rules, text, state, tab_width).lines;
    lemma_matches_stand_in_text(rules, text, state);
    lemma_resolved_idempotent(found.lines);
    assert forall|l: int| 0 <= l < split_lines(text).len() implies all_stand_in(
        #[trigger] lines[l],
        split_lines(text)[l],
    ) by {
        assert(all_stand_in(found.lines[l], split_lines(text)[l]));
        assert forall|k: int| 0 <= k < lines[l].len() implies stands_in(
            #[trigger] lines[l][k],
            split_lines(text)[l],
        ) by {
            assert(stands_in(found.lines[l][k], split_lines(text)[l]));
        }
    }
}

} // verus!

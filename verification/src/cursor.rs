//! Matches seen from a cursor: which lie before it and which after, and what
//! the queries read off them.

use vstd::prelude::*;
use crate::parser::matcher::{
    spaced, Kind, MatchView, MatchWithLine, MatchWithLineView, TokenView,
};
use crate::stream::{
    lemma_offset_end, lemma_offset_mono, lemma_offset_next, lemma_position_exists,
    lemma_same_shape, lemma_stream_index, offset, same_shape, stream_of,
};

verus! {

/// The matches of every line, each with the number of its line.
pub open spec fn numbered(lines: Seq<Seq<MatchView>>) -> Seq<Seq<MatchWithLineView>> {
    Seq::new(
        lines.len(),
        |l: int| Seq::new(lines[l].len(), |k: int| lines[l][k].on_line(l as nat)),
    )
}

/// All matches of the lines in document order, each with its line.
pub open spec fn located(lines: Seq<Seq<MatchView>>) -> Seq<MatchWithLineView> {
    stream_of(numbered(lines))
}

/// A side of the cursor.
#[derive(Clone, Copy, Debug)]
pub enum Side {
    /// At the cursor or after it.
    From,
    /// After the cursor.
    After,
    /// Before the cursor.
    Before,
}

/// Whether a match lies on the given side of the cursor at `(line, col)`,
/// by the column it starts in.
pub open spec fn on_side(m: MatchWithLineView, side: Side, line: nat, col: nat) -> bool {
    match side {
        Side::From => m.line > line || (m.line == line && m.col >= col),
        Side::After => m.line > line || (m.line == line && m.col > col),
        Side::Before => m.line < line || (m.line == line && m.col < col),
    }
}

/// The matches that lie on the given side of the cursor, in document order.
pub open spec fn select(items: Seq<MatchWithLineView>, side: Side, line: nat, col: nat) -> Seq<
    MatchWithLineView,
>
    decreases items.len(),
{
    if items.len() == 0 {
        Seq::empty()
    } else {
        let before = select(items.drop_last(), side, line, col);
        if on_side(items.last(), side, line, col) {
            before.push(items.last())
        } else {
            before
        }
    }
}

/// The views of a run of matches with lines.
pub open spec fn located_views(items: Seq<MatchWithLine>) -> Seq<MatchWithLineView> {
    items.map_values(|m: MatchWithLine| m@)
}

/// Selecting from two runs, one after the other, selects from each.
pub proof fn lemma_select_add(
    a: Seq<MatchWithLineView>,
    b: Seq<MatchWithLineView>,
    side: Side,
    line: nat,
    col: nat,
)
    ensures
        select(a + b, side, line, col) == select(a, side, line, col) + select(b, side, line, col),
    decreases b.len(),
{
    if b.len() == 0 {
        assert(a + b == a);
        assert(select(a, side, line, col) + select(b, side, line, col) == select(
            a,
            side,
            line,
            col,
        ));
    } else {
        lemma_select_add(a, b.drop_last(), side, line, col);
        assert((a + b).drop_last() == a + b.drop_last());
        assert((a + b).last() == b.last());
        let sa = select(a, side, line, col);
        let sb = select(b.drop_last(), side, line, col);
        assert((sa + sb).push(b.last()) == sa + sb.push(b.last()));
    }
}

/// Selecting from a run of which nothing lies on the side yields nothing.
pub proof fn lemma_select_none(items: Seq<MatchWithLineView>, side: Side, line: nat, col: nat)
    requires
        forall|i: int| 0 <= i < items.len() ==> !on_side(#[trigger] items[i], side, line, col),
    ensures
        select(items, side, line, col) == Seq::<MatchWithLineView>::empty(),
    decreases items.len(),
{
    if items.len() > 0 {
        assert forall|i: int| 0 <= i < items.drop_last().len() implies !on_side(
            #[trigger] items.drop_last()[i],
            side,
            line,
            col,
        ) by {
            assert(items.drop_last()[i] == items[i]);
        }
        lemma_select_none(items.drop_last(), side, line, col);
    }
}

/// Lines of which nothing lies on the side add nothing to the selection.
pub proof fn lemma_select_lines(
    lines: Seq<Seq<MatchView>>,
    a: int,
    b: int,
    side: Side,
    line: nat,
    col: nat,
)
    requires
        0 <= a <= b <= lines.len(),
        forall|l: int, k: int|
            a <= l < b && 0 <= k < lines[l].len() ==> !on_side(
                (#[trigger] lines[l][k]).on_line(l as nat),
                side,
                line,
                col,
            ),
    ensures
        select(stream_of(numbered(lines).take(b)), side, line, col) == select(
            stream_of(numbered(lines).take(a)),
            side,
            line,
            col,
        ),
    decreases b - a,
{
    if a < b {
        lemma_select_lines(lines, a, b - 1, side, line, col);
        let items = numbered(lines);
        lemma_offset_next(items, b - 1);
        lemma_select_add(stream_of(items.take(b - 1)), items[b - 1], side, line, col);
        assert forall|i: int| 0 <= i < items[b - 1].len() implies !on_side(
            #[trigger] items[b - 1][i],
            side,
            line,
            col,
        ) by {
            assert(items[b - 1][i] == lines[b - 1][i].on_line((b - 1) as nat));
        }
        lemma_select_none(items[b - 1], side, line, col);
        let kept = select(stream_of(items.take(b - 1)), side, line, col);
        assert(kept + Seq::<MatchWithLineView>::empty() == kept);
    }
}

/// The depth that the first match with a depth stands for, counted one up
/// where the match is of the given kind.
pub open spec fn first_height(items: Seq<MatchWithLineView>, bump: Kind) -> Option<nat>
    decreases items.len(),
{
    if items.len() == 0 {
        None
    } else {
        match items[0].stack_height {
            Some(height) => Some(
                if items[0].kind == bump {
                    height + 1
                } else {
                    height
                },
            ),
            None => first_height(items.drop_first(), bump),
        }
    }
}

/// The nesting depth at the cursor, read off the matches from the cursor on
/// and, failing that, off the matches before it, nearest first.
pub open spec fn height_at(ahead: Seq<MatchWithLineView>, behind: Seq<MatchWithLineView>) -> nat {
    match first_height(ahead, Kind::Closing) {
        Some(height) => height,
        None => match first_height(behind, Kind::Opening) {
            Some(height) => height,
            None => 0,
        },
    }
}

/// The first match with the given token and depth.
pub open spec fn first_partner(
    items: Seq<MatchWithLineView>,
    token: TokenView,
    stack_height: Option<nat>,
) -> Option<MatchWithLineView>
    decreases items.len(),
{
    if items.len() == 0 {
        None
    } else if items[0].token == token && items[0].stack_height == stack_height {
        Some(items[0])
    } else {
        first_partner(items.drop_first(), token, stack_height)
    }
}

/// The index of the first match of the line from `from` on that covers the
/// column.
pub open spec fn first_covering(line: Seq<MatchView>, col: nat, from: int) -> Option<int>
    decreases line.len() - from,
{
    if from < 0 || from >= line.len() {
        None
    } else if line[from].covers(col) {
        Some(from)
    } else {
        first_covering(line, col, from + 1)
    }
}

/// The other end of a pair.
pub open spec fn opposite(kind: Kind) -> Kind {
    match kind {
        Kind::Opening => Kind::Closing,
        Kind::Closing => Kind::Opening,
        Kind::NonPair => Kind::NonPair,
    }
}

/// The search for a delimiter without a partner that a new delimiter at the
/// cursor would pair with, over the matches on one side of the cursor,
/// nearest first.
///
/// `want` is the kind looked for and `pair` its token. `lowest` is the lowest
/// depth met so far and `current` the depth at the place the search has
/// come to; both start as the depth at the cursor. A paired delimiter that
/// lies lower than `lowest` ends the search without a result, unless it is of
/// the kind and token looked for: then the search goes on from its depth.
/// The result is the first delimiter of that kind and token without a depth
/// that is met while `current` is `lowest`.
pub open spec fn seek(
    items: Seq<MatchWithLineView>,
    pair: TokenView,
    want: Kind,
    lowest: nat,
    current: nat,
) -> Option<MatchWithLineView>
    decreases items.len(),
{
    if items.len() == 0 {
        None
    } else {
        let m = items[0];
        let rest = items.drop_first();
        if !(m.token is Delimiter) {
            seek(rest, pair, want, lowest, current)
        } else {
            let wanted = m.kind == want && m.token == pair;
            match m.stack_height {
                Some(height) => if height < lowest && !wanted {
                    None
                } else {
                    seek(
                        rest,
                        pair,
                        want,
                        if height < lowest {
                            height
                        } else {
                            lowest
                        },
                        if m.kind == opposite(want) {
                            height + 1
                        } else {
                            height
                        },
                    )
                },
                None => if wanted && current == lowest {
                    Some(m)
                } else {
                    seek(rest, pair, want, lowest, current)
                },
            }
        }
    }
}

/// The index of the first match of the line that closes the span opened by
/// the match at `opener`: a closing match further right with the same token
/// and depth.
pub open spec fn span_closer(line: Seq<MatchView>, opener: int, from: int) -> Option<int>
    decreases line.len() - from,
{
    if from < 0 || from >= line.len() {
        None
    } else if line[from].kind == Kind::Closing && line[from].col > line[opener].col
        && line[from].token == line[opener].token && line[from].stack_height
        == line[opener].stack_height {
        Some(from)
    } else {
        span_closer(line, opener, from + 1)
    }
}

/// Whether the match at `opener` opens a span that reaches the column: it
/// stands at or before the column, and the span is not closed on the line
/// before the column.
pub open spec fn span_reaches(line: Seq<MatchView>, opener: int, col: nat) -> bool {
    &&& line[opener].kind == Kind::Opening
    &&& line[opener].col <= col
    &&& line[opener].token.span() is Some
    &&& match span_closer(line, opener, 0) {
        Some(closer) => line[closer].col >= col,
        None => true,
    }
}

/// The index of the last match before `upto` that opens a span reaching the
/// column.
pub open spec fn enclosing_opener(line: Seq<MatchView>, col: nat, upto: int) -> Option<int>
    decreases upto,
{
    if upto <= 0 || upto > line.len() {
        None
    } else if span_reaches(line, upto - 1, col) {
        Some(upto - 1)
    } else {
        enclosing_opener(line, col, upto - 1)
    }
}

/// Where everything from `a` on lies on the side and nothing before it, the
/// selection is what stands from `a` on.
pub proof fn lemma_select_suffix(
    items: Seq<MatchWithLineView>,
    a: int,
    side: Side,
    line: nat,
    col: nat,
)
    requires
        0 <= a <= items.len(),
        forall|x: int| 0 <= x < a ==> !on_side(#[trigger] items[x], side, line, col),
        forall|x: int| a <= x < items.len() ==> on_side(#[trigger] items[x], side, line, col),
    ensures
        select(items, side, line, col) == items.skip(a),
    decreases items.len(),
{
    if a == items.len() {
        lemma_select_none(items, side, line, col);
        assert(items.skip(a) == Seq::<MatchWithLineView>::empty());
    } else {
        let shorter = items.drop_last();
        assert forall|x: int| 0 <= x < shorter.len() implies shorter[x] == items[x] by {}
        lemma_select_suffix(shorter, a, side, line, col);
        assert(shorter.skip(a).push(items.last()) == items.skip(a));
    }
}

/// Where everything before `a` lies on the side and nothing from `a` on, the
/// selection is what stands before `a`.
pub proof fn lemma_select_prefix(
    items: Seq<MatchWithLineView>,
    a: int,
    side: Side,
    line: nat,
    col: nat,
)
    requires
        0 <= a <= items.len(),
        forall|x: int| 0 <= x < a ==> on_side(#[trigger] items[x], side, line, col),
        forall|x: int| a <= x < items.len() ==> !on_side(#[trigger] items[x], side, line, col),
    ensures
        select(items, side, line, col) == items.take(a),
    decreases items.len(),
{
    if items.len() == 0 {
        assert(items.take(a) == Seq::<MatchWithLineView>::empty());
    } else {
        let shorter = items.drop_last();
        assert forall|x: int| 0 <= x < shorter.len() implies shorter[x] == items[x] by {}
        if a == items.len() {
            lemma_select_prefix(shorter, a - 1, side, line, col);
            assert(shorter.take(a - 1) == shorter);
            assert(items.take(a) == items);
            assert(shorter.push(items.last()) == items);
        } else {
            lemma_select_prefix(shorter, a, side, line, col);
            assert(shorter.take(a) == items.take(a));
        }
    }
}

/// There are as many matches with lines as matches.
pub proof fn lemma_located_len(lines: Seq<Seq<MatchView>>)
    ensures
        located(lines).len() == stream_of(lines).len(),
{
    let items = numbered(lines);
    assert(same_shape(items, lines));
    lemma_same_shape(items, lines, lines.len() as int);
    lemma_offset_end(items);
    lemma_offset_end(lines);
}

/// The match with its line at a place, seen in the stream of all matches.
pub proof fn lemma_located_index(lines: Seq<Seq<MatchView>>, l: int, k: int)
    requires
        0 <= l < lines.len(),
        0 <= k < lines[l].len(),
    ensures
        0 <= offset(lines, l) + k < located(lines).len(),
        located(lines).len() == stream_of(lines).len(),
        located(lines)[offset(lines, l) + k] == lines[l][k].on_line(l as nat),
        stream_of(lines)[offset(lines, l) + k] == lines[l][k],
{
    let items = numbered(lines);
    assert(same_shape(items, lines));
    lemma_same_shape(items, lines, l);
    lemma_same_shape(items, lines, lines.len() as int);
    lemma_offset_end(items);
    lemma_offset_end(lines);
    lemma_stream_index(items, l, k);
    lemma_stream_index(lines, l, k);
}

/// Where the matches of every line stand in rising columns, the place of a
/// match splits the stream: what lies before the match is what stands before
/// it, and what lies after it is what stands after it.
#[verifier::rlimit(50)]
pub proof fn lemma_select_sorted(lines: Seq<Seq<MatchView>>, l: int, k: int)
    requires
        forall|x: int| 0 <= x < lines.len() ==> spaced(#[trigger] lines[x]),
        0 <= l < lines.len(),
        0 <= k < lines[l].len(),
    ensures
        0 <= offset(lines, l) + k < located(lines).len(),
        select(located(lines), Side::After, l as nat, lines[l][k].col) == located(lines).skip(
            offset(lines, l) + k + 1,
        ),
        select(located(lines), Side::From, l as nat, lines[l][k].col) == located(lines).skip(
            offset(lines, l) + k,
        ),
        select(located(lines), Side::Before, l as nat, lines[l][k].col) == located(lines).take(
            offset(lines, l) + k,
        ),
{
    let items = located(lines);
    let i = offset(lines, l) + k;
    let col = lines[l][k].col;
    lemma_located_index(lines, l, k);
    assert forall|x: int| 0 <= x < items.len() implies {
        &&& on_side(#[trigger] items[x], Side::After, l as nat, col) == (x > i)
        &&& on_side(items[x], Side::From, l as nat, col) == (x >= i)
        &&& on_side(items[x], Side::Before, l as nat, col) == (x < i)
    } by {
        let place = lemma_position_exists(lines, x);
        let l2 = place.0;
        let k2 = place.1;
        lemma_located_index(lines, l2, k2);
        assert(items[x] == lines[l2][k2].on_line(l2 as nat));
        if l2 < l {
            lemma_offset_next(lines, l2);
            lemma_offset_mono(lines, l2 + 1, l);
        } else if l < l2 {
            lemma_offset_next(lines, l);
            lemma_offset_mono(lines, l + 1, l2);
        } else {
            assert(spaced(lines[l]));
            if k2 < k {
                assert(lines[l][k2].col + lines[l][k2].len() <= lines[l][k].col);
                assert(lines[l][k2].len() >= 1);
            } else if k < k2 {
                assert(lines[l][k].col + lines[l][k].len() <= lines[l][k2].col);
                assert(lines[l][k].len() >= 1);
            }
        }
    }
    lemma_select_suffix(items, i + 1, Side::After, l as nat, col);
    lemma_select_suffix(items, i, Side::From, l as nat, col);
    lemma_select_prefix(items, i, Side::Before, l as nat, col);
}

/// Whether a match has the token and depth looked for.
pub open spec fn is_partner(m: MatchWithLineView, token: TokenView, stack_height: Option<nat>) -> bool {
    m.token == token && m.stack_height == stack_height
}

/// Searching forward from `from` finds the first match with the token and
/// depth.
pub proof fn lemma_first_partner_ahead(
    items: Seq<MatchWithLineView>,
    from: int,
    j: int,
    token: TokenView,
    stack_height: Option<nat>,
)
    requires
        0 <= from <= j < items.len(),
        is_partner(items[j], token, stack_height),
        forall|x: int| from <= x < j ==> !is_partner(#[trigger] items[x], token, stack_height),
    ensures
        first_partner(items.skip(from), token, stack_height) == Some(items[j]),
    decreases j - from,
{
    let rest = items.skip(from);
    assert(rest[0] == items[from]);
    if from < j {
        assert(!is_partner(items[from], token, stack_height));
        assert(rest.drop_first() == items.skip(from + 1));
        lemma_first_partner_ahead(items, from + 1, j, token, stack_height);
    }
}

/// Searching backward from before `upto` finds the nearest match with the
/// token and depth.
pub proof fn lemma_first_partner_behind(
    items: Seq<MatchWithLineView>,
    upto: int,
    j: int,
    token: TokenView,
    stack_height: Option<nat>,
)
    requires
        0 <= j < upto <= items.len(),
        is_partner(items[j], token, stack_height),
        forall|x: int| j < x < upto ==> !is_partner(#[trigger] items[x], token, stack_height),
    ensures
        first_partner(items.take(upto).reverse(), token, stack_height) == Some(items[j]),
    decreases upto - j,
{
    let back = items.take(upto).reverse();
    assert(back[0] == items[upto - 1]);
    if j < upto - 1 {
        assert(!is_partner(items[upto - 1], token, stack_height));
        assert(back.drop_first() =~= items.take(upto - 1).reverse());
        lemma_first_partner_behind(items, upto - 1, j, token, stack_height);
    }
}

/// On a line whose matches do not overlap, the match that covers a column
/// is the first that does.
pub proof fn lemma_first_covering(line: Seq<MatchView>, col: nat, from: int, k: int)
    requires
        spaced(line),
        0 <= from <= k < line.len(),
        line[k].covers(col),
    ensures
        first_covering(line, col, from) == Some(k),
    decreases k - from,
{
    if from < k {
        assert(line[from].col + line[from].len() <= line[k].col);
        lemma_first_covering(line, col, from + 1, k);
    }
}

/// Whether one match stands before another in the document.
pub open spec fn stands_before(a: MatchWithLineView, b: MatchWithLineView) -> bool {
    a.line < b.line || (a.line == b.line && a.col < b.col)
}

/// Where the matches of every line stand in rising columns, the stream of
/// all matches is in document order.
pub proof fn lemma_located_sorted(lines: Seq<Seq<MatchView>>, i: int, j: int)
    requires
        forall|x: int| 0 <= x < lines.len() ==> spaced(#[trigger] lines[x]),
        0 <= i < j < located(lines).len(),
    ensures
        stands_before(located(lines)[i], located(lines)[j]),
{
    let first = lemma_position_exists(numbered(lines), i);
    let second = lemma_position_exists(numbered(lines), j);
    assert(same_shape(numbered(lines), lines));
    lemma_same_shape(numbered(lines), lines, first.0);
    lemma_same_shape(numbered(lines), lines, second.0);
    lemma_located_index(lines, first.0, first.1);
    lemma_located_index(lines, second.0, second.1);
    if first.0 < second.0 {
    } else if second.0 < first.0 {
        lemma_offset_next(lines, second.0);
        lemma_offset_mono(lines, second.0 + 1, first.0);
    } else {
        assert(spaced(lines[first.0]));
        assert(lines[first.0][first.1].col + lines[first.0][first.1].len()
            <= lines[first.0][second.1].col);
        assert(lines[first.0][first.1].len() >= 1);
    }
}

/// Looks from `k` on for the place at which the cursor splits the stream.
proof fn lemma_find_split(lines: Seq<Seq<MatchView>>, line: nat, col: nat, k: int) -> (c: int)
    requires
        forall|x: int| 0 <= x < lines.len() ==> spaced(#[trigger] lines[x]),
        0 <= k <= located(lines).len(),
        forall|x: int| 0 <= x < k ==> on_side(#[trigger] located(lines)[x], Side::Before, line, col),
    ensures
        k <= c <= located(lines).len(),
        forall|x: int| 0 <= x < c ==> on_side(#[trigger] located(lines)[x], Side::Before, line, col),
        forall|x: int|
            c <= x < located(lines).len() ==> !on_side(
                #[trigger] located(lines)[x],
                Side::Before,
                line,
                col,
            ),
    decreases located(lines).len() - k,
{
    let items = located(lines);
    if k == items.len() {
        k
    } else if on_side(items[k], Side::Before, line, col) {
        lemma_find_split(lines, line, col, k + 1)
    } else {
        assert forall|x: int| k <= x < items.len() implies !on_side(
            #[trigger] items[x],
            Side::Before,
            line,
            col,
        ) by {
            if x > k {
                lemma_located_sorted(lines, k, x);
            }
        }
        k
    }
}

/// The cursor splits the stream of all matches in two: what lies before it
/// is a run from the start, and what lies at or after it is the rest.
pub proof fn lemma_cursor_splits(lines: Seq<Seq<MatchView>>, line: nat, col: nat) -> (c: int)
    requires
        forall|x: int| 0 <= x < lines.len() ==> spaced(#[trigger] lines[x]),
    ensures
        0 <= c <= located(lines).len(),
        select(located(lines), Side::Before, line, col) == located(lines).take(c),
        select(located(lines), Side::From, line, col) == located(lines).skip(c),
{
    let items = located(lines);
    let c = lemma_find_split(lines, line, col, 0);
    lemma_select_prefix(items, c, Side::Before, line, col);
    lemma_select_suffix(items, c, Side::From, line, col);
    c
}

} // verus!

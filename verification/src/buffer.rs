//! The parsed buffer: the matches, closing state and indentation of every
//! line, with nesting depths resolved over the whole buffer, and the queries
//! that are asked of it at a cursor.

use vstd::prelude::*;
use vstd::string::*;
use crate::cursor::{
    enclosing_opener, first_covering, first_height, first_partner, height_at, lemma_select_add,
    lemma_select_lines, located, located_views, numbered, on_side, opposite, seek, select,
    span_closer, span_reaches, Side,
};
use crate::nesting::{lemma_resolved_idempotent, resolve, resolved};
use crate::parser::indent::{indent_levels_of, indent_levels_spec};
use crate::parser::languages::rules_for;
use crate::parser::matcher::{
    height_view, match_views, rule_views, spaced, Kind, Match, MatchView, MatchWithLine,
    MatchWithLineView, Matcher, RuleView, Token, TokenView,
};
use crate::parser::parse::{
    lemma_scan_shape, line_views, scan, scan_spec, state_views, State, StateView,
};
use crate::parser::text::{join_lines, joined, lemma_split_lines_len, line_bytes};
use crate::stream::{lemma_offset_next, stream_of};

verus! {

/// A parsed buffer over mathematical values.
pub struct BufferView {
    /// The matches of every line.
    pub lines: Seq<Seq<MatchView>>,
    /// The state in which every line ends.
    pub states: Seq<StateView>,
    /// The indentation width of every line.
    pub indentation: Seq<u8>,
    /// The width of a tab in the indentation.
    pub tab_width: u8,
}

impl BufferView {
    /// Whether the buffer holds one entry of each sort for every line, no
    /// line ends in a state that cannot cross a line end, and the matches of
    /// a line stand in rising columns without overlap. Nothing is asked of
    /// the depths.
    pub open spec fn lined_up(self) -> bool {
        &&& self.states.len() == self.lines.len()
        &&& self.indentation.len() == self.lines.len()
        &&& forall|l: int|
            0 <= l < self.states.len() ==> (#[trigger] self.states[l]).crosses_lines()
        &&& forall|l: int| 0 <= l < self.lines.len() ==> spaced(#[trigger] self.lines[l])
    }

    /// Whether the buffer is lined up and the depths are the resolved ones.
    pub open spec fn wf(self) -> bool {
        &&& self.lined_up()
        &&& self.lines == resolved(self.lines)
        &&& forall|l: int, k: int|
            0 <= l < self.lines.len() && 0 <= k < self.lines[l].len()
                && (#[trigger] self.lines[l][k]).stack_height is Some
                ==> self.lines[l][k].stack_height->0 < usize::MAX
    }
}

/// The buffer that a text parses to: its scan from the given state with the
/// depths resolved, and the indentation of its lines.
pub open spec fn parsed(
    rules: Seq<RuleView>,
    text: Seq<u8>,
    initial_state: StateView,
    tab_width: u8,
) -> BufferView {
    BufferView {
        lines: resolved(scan_spec(rules, text, initial_state).lines),
        states: scan_spec(rules, text, initial_state).states,
        indentation: indent_levels_spec(text, tab_width),
        tab_width,
    }
}

/// The first line of a range to parse anew, kept within the buffer.
pub open spec fn range_start(line_count: nat, start_line: Option<usize>) -> int {
    match start_line {
        Some(start) => if start <= line_count {
            start as int
        } else {
            line_count as int
        },
        None => 0,
    }
}

/// The end of a range to parse anew, kept between its start and the end of
/// the buffer.
pub open spec fn range_end(line_count: nat, start: int, old_end_line: Option<usize>) -> int {
    match old_end_line {
        Some(end) => if end > line_count {
            line_count as int
        } else if end < start {
            start
        } else {
            end as int
        },
        None => line_count as int,
    }
}

/// How many of the lines parsed anew go into the buffer: as many as lie
/// between the start and the new end, at most all of them.
pub open spec fn range_count(fresh: nat, start: int, new_end_line: Option<usize>) -> int {
    match new_end_line {
        Some(end) => if end <= start {
            0
        } else if end - start > fresh {
            fresh as int
        } else {
            end - start
        },
        None => fresh as int,
    }
}

impl BufferView {
    /// The state in which the line before `start` ends; `Normal` before the
    /// first line.
    pub open spec fn state_before(self, start: int) -> StateView {
        if 0 < start <= self.states.len() {
            self.states[start - 1]
        } else {
            StateView::Normal
        }
    }

    /// The buffer after the lines from `start_line` up to `old_end_line` have
    /// given way to the lines of `text`, scanned from the state that the line
    /// before them ends in, and the depths have been resolved over all lines.
    pub open spec fn reparsed(
        self,
        rules: Seq<RuleView>,
        text: Seq<u8>,
        start_line: Option<usize>,
        old_end_line: Option<usize>,
        new_end_line: Option<usize>,
    ) -> BufferView {
        let start = range_start(self.lines.len(), start_line);
        let end = range_end(self.lines.len(), start, old_end_line);
        let fresh = scan_spec(rules, text, self.state_before(start));
        let count = range_count(fresh.lines.len(), start, new_end_line);
        BufferView {
            lines: resolved(
                self.lines.take(start) + fresh.lines.take(count) + self.lines.skip(end),
            ),
            states: self.states.take(start) + fresh.states.take(count) + self.states.skip(end),
            indentation: self.indentation.take(start) + indent_levels_spec(
                text,
                self.tab_width,
            ).take(count) + self.indentation.skip(end),
            tab_width: self.tab_width,
        }
    }
}

impl BufferView {
    /// The matches at the cursor and after it, in document order.
    pub open spec fn matches_from(self, line: nat, col: nat) -> Seq<MatchWithLineView> {
        select(located(self.lines), Side::From, line, col)
    }

    /// The matches before the cursor, the nearest first.
    pub open spec fn matches_to(self, line: nat, col: nat) -> Seq<MatchWithLineView> {
        select(located(self.lines), Side::Before, line, col).reverse()
    }

    /// The first match of the line that covers the column.
    pub open spec fn match_at(self, line: nat, col: nat) -> Option<MatchView> {
        if line < self.lines.len() {
            match first_covering(self.lines[line as int], col, 0) {
                Some(k) => Some(self.lines[line as int][k]),
                None => None,
            }
        } else {
            None
        }
    }

    /// The nesting depth at the cursor.
    pub open spec fn height_at(self, line: nat, col: nat) -> nat {
        height_at(self.matches_from(line, col), self.matches_to(line, col))
    }

    /// The pair that the match at the cursor belongs to, the opening match
    /// first.
    ///
    /// A delimiter without a depth has no pair, and comment markers are
    /// never paired. The partner of an opening match is the first match
    /// after it with the same token and depth, that of a closing match the
    /// nearest such match before it.
    pub open spec fn pair_at(self, line: nat, col: nat) -> Option<
        (MatchWithLineView, MatchWithLineView),
    > {
        match self.match_at(line, col) {
            None => None,
            Some(m) => if m.token is LineComment || m.token is BlockComment {
                None
            } else if m.token is Delimiter && m.stack_height is None {
                None
            } else if m.kind == Kind::Opening {
                match first_partner(
                    select(located(self.lines), Side::After, line, m.col),
                    m.token,
                    m.stack_height,
                ) {
                    Some(closer) => Some((m.on_line(line), closer)),
                    None => None,
                }
            } else if m.kind == Kind::Closing {
                match first_partner(self.matches_to(line, m.col), m.token, m.stack_height) {
                    Some(opener) => Some((opener, m.on_line(line))),
                    None => None,
                }
            } else {
                None
            },
        }
    }

    /// The name of the span that the cursor is in: that of the last span
    /// opened on the line at or before the column and not closed before it,
    /// or else that of the span in which the line ends.
    pub open spec fn span_at(self, line: nat, col: nat) -> Option<Seq<u8>> {
        if line < self.lines.len() && line < self.states.len() {
            let matches = self.lines[line as int];
            match enclosing_opener(matches, col, matches.len() as int) {
                Some(opener) => matches[opener].token.span(),
                None => self.states[line as int].span(),
            }
        } else {
            None
        }
    }

    /// The opening delimiter without a partner, before the cursor, that a
    /// closing delimiter put at the cursor would pair with.
    pub open spec fn unmatched_opening_before(
        self,
        opening: Seq<u8>,
        closing: Seq<u8>,
        line: nat,
        col: nat,
    ) -> Option<MatchWithLineView> {
        seek(
            self.matches_to(line, col),
            TokenView::Delimiter(opening, closing),
            Kind::Opening,
            self.height_at(line, col),
            self.height_at(line, col),
        )
    }

    /// The closing delimiter without a partner, at or after the cursor, that
    /// an opening delimiter put at the cursor would pair with.
    pub open spec fn unmatched_closing_after(
        self,
        opening: Seq<u8>,
        closing: Seq<u8>,
        line: nat,
        col: nat,
    ) -> Option<MatchWithLineView> {
        seek(
            self.matches_from(line, col),
            TokenView::Delimiter(opening, closing),
            Kind::Closing,
            self.height_at(line, col),
            self.height_at(line, col),
        )
    }
}

/// The bytes of a string.
pub open spec fn string_bytes(s: String) -> Seq<u8> {
    vstd::utf8::encode_utf8(s@)
}

/// The bytes of a string, if there is one.
pub open spec fn name_bytes(name: Option<String>) -> Option<Seq<u8>> {
    match name {
        Some(s) => Some(string_bytes(s)),
        None => None,
    }
}

/// The view of a match, if there is one.
pub open spec fn match_view(m: Option<Match>) -> Option<MatchView> {
    match m {
        Some(m) => Some(m@),
        None => None,
    }
}

/// The view of a match with its line, if there is one.
pub open spec fn located_view(m: Option<MatchWithLine>) -> Option<MatchWithLineView> {
    match m {
        Some(m) => Some(m@),
        None => None,
    }
}

/// The views of a pair of matches, if there is one.
pub open spec fn pair_view(pair: Option<(MatchWithLine, MatchWithLine)>) -> Option<
    (MatchWithLineView, MatchWithLineView),
> {
    match pair {
        Some((opener, closer)) => Some((opener@, closer@)),
        None => None,
    }
}

/// Whether every depth among the matches can be counted one up.
pub open spec fn countable(items: Seq<MatchWithLine>) -> bool {
    forall|i: int|
        0 <= i < items.len() && (#[trigger] items[i]).stack_height is Some
            ==> items[i].stack_height->0 < usize::MAX
}

/// A copy of a line of matches.
fn copy_line(line: &Vec<Match>) -> (copy: Vec<Match>)
    ensures
        copy@ == line@,
{
    let mut copy: Vec<Match> = Vec::new();
    let mut k: usize = 0;
    while k < line.len()
        invariant
            k <= line@.len(),
            copy@ == line@.take(k as int),
        decreases line@.len() - k,
    {
        copy.push(line[k]);
        assert(line@.take(k + 1) == line@.take(k as int).push(line@[k as int]));
        k += 1;
    }
    assert(line@.take(k as int) == line@);
    copy
}

/// The matches in the opposite order.
fn reversed(items: Vec<MatchWithLine>) -> (turned: Vec<MatchWithLine>)
    ensures
        located_views(turned@) == located_views(items@).reverse(),
        countable(items@) ==> countable(turned@),
{
    let mut turned: Vec<MatchWithLine> = Vec::new();
    let mut k: usize = items.len();
    while k > 0
        invariant
            k <= items@.len(),
            turned@.len() == items@.len() - k,
            forall|i: int| 0 <= i < turned@.len() ==> turned@[i] == items@[items@.len() - 1 - i],
        decreases k,
    {
        k -= 1;
        turned.push(items[k]);
    }
    assert(located_views(turned@) =~= located_views(items@).reverse());
    turned
}

/// Whether two depths are the same.
fn same_height(a: Option<usize>, b: Option<usize>) -> (r: bool)
    ensures
        r == (height_view(a) == height_view(b)),
{
    match (a, b) {
        (Some(x), Some(y)) => x == y,
        (None, None) => true,
        _ => false,
    }
}

/// The depth that the first match with a depth stands for, counted one up
/// where the match is of the given kind.
fn first_height_in(items: &Vec<MatchWithLine>, bump: Kind) -> (found: Option<usize>)
    requires
        countable(items@),
    ensures
        height_view(found) == first_height(located_views(items@), bump),
{
    let ghost views = located_views(items@);
    let mut i: usize = 0;
    proof {
        assert(views.skip(0) == views);
    }
    while i < items.len()
        invariant
            i <= items@.len(),
            views == located_views(items@),
            countable(items@),
            first_height(views.skip(i as int), bump) == first_height(views, bump),
        decreases items@.len() - i,
    {
        let m = items[i];
        proof {
            assert(views.skip(i as int)[0] == m@);
            assert(views.skip(i as int).drop_first() == views.skip(i + 1));
        }
        match m.stack_height {
            Some(height) => {
                return Some(
                    if m.kind == bump {
                        height + 1
                    } else {
                        height
                    },
                );
            },
            None => {},
        }
        i += 1;
    }
    None
}

/// The first match with the given token and depth.
fn first_partner_in(items: &Vec<MatchWithLine>, token: &Token, stack_height: Option<usize>) -> (found:
    Option<MatchWithLine>)
    ensures
        located_view(found) == first_partner(
            located_views(items@),
            token@,
            height_view(stack_height),
        ),
{
    let ghost views = located_views(items@);
    let mut i: usize = 0;
    proof {
        assert(views.skip(0) == views);
    }
    while i < items.len()
        invariant
            i <= items@.len(),
            views == located_views(items@),
            first_partner(views.skip(i as int), token@, height_view(stack_height))
                == first_partner(views, token@, height_view(stack_height)),
        decreases items@.len() - i,
    {
        let m = items[i];
        proof {
            assert(views.skip(i as int)[0] == m@);
            assert(views.skip(i as int).drop_first() == views.skip(i + 1));
        }
        if m.token.same(token) && same_height(m.stack_height, stack_height) {
            return Some(m);
        }
        i += 1;
    }
    None
}

/// The first match of the line that closes the span opened by the match at
/// `opener`.
fn span_closer_in(row: &Vec<Match>, opener: usize) -> (found: Option<usize>)
    requires
        opener < row@.len(),
    ensures
        found is Some <==> span_closer(match_views(row@), opener as int, 0) is Some,
        found is Some ==> found->0 < row@.len() && span_closer(match_views(row@), opener as int, 0)
            == Some(found->0 as int),
{
    let ghost line = match_views(row@);
    let first = row[opener];
    let mut k: usize = 0;
    while k < row.len()
        invariant
            k <= row@.len(),
            opener < row@.len(),
            line == match_views(row@),
            first == row@[opener as int],
            span_closer(line, opener as int, k as int) == span_closer(line, opener as int, 0),
        decreases row@.len() - k,
    {
        let m = row[k];
        assert(line[k as int] == m@);
        assert(line[opener as int] == first@);
        if m.kind == Kind::Closing && m.col > first.col && m.token.same(&first.token)
            && same_height(m.stack_height, first.stack_height) {
            return Some(k);
        }
        k += 1;
    }
    None
}

/// The name of the span that the match at `opener` opens, if it opens one
/// that reaches the column.
fn span_reaching(row: &Vec<Match>, opener: usize, col: usize) -> (name: Option<&'static str>)
    requires
        opener < row@.len(),
    ensures
        name is Some <==> span_reaches(match_views(row@), opener as int, col as nat),
        name is Some ==> Some(name->0.spec_bytes()) == match_views(row@)[opener as int].token.span(),
{
    let first = row[opener];
    assert(match_views(row@)[opener as int] == first@);
    let span = match first.token {
        Token::InlineSpan(name, _, _) => Some(name),
        Token::BlockSpan(name, _, _) => Some(name),
        _ => None,
    };
    if first.kind != Kind::Opening || first.col > col || span.is_none() {
        return None;
    }
    let reaches = match span_closer_in(row, opener) {
        Some(closer) => {
            assert(match_views(row@)[closer as int] == row@[closer as int]@);
            row[closer].col >= col
        },
        None => true,
    };
    if reaches {
        span
    } else {
        None
    }
}

/// The name of the last span opened on the line that reaches the column.
fn enclosing_span(row: &Vec<Match>, col: usize) -> (name: Option<&'static str>)
    ensures
        name is Some <==> enclosing_opener(
            match_views(row@),
            col as nat,
            row@.len() as int,
        ) is Some,
        name is Some ==> Some(name->0.spec_bytes()) == match_views(row@)[enclosing_opener(
            match_views(row@),
            col as nat,
            row@.len() as int,
        )->0].token.span(),
{
    let ghost line = match_views(row@);
    let mut o: usize = row.len();
    while o > 0
        invariant
            o <= row@.len(),
            line == match_views(row@),
            enclosing_opener(line, col as nat, o as int) == enclosing_opener(
                line,
                col as nat,
                row@.len() as int,
            ),
        decreases o,
    {
        o -= 1;
        let found = span_reaching(row, o, col);
        if found.is_some() {
            return found;
        }
    }
    None
}

/// The search for a delimiter without a partner among the given matches.
fn seek_in(
    items: &Vec<MatchWithLine>,
    opening: &str,
    closing: &str,
    want: Kind,
    cursor_height: usize,
) -> (found: Option<MatchWithLine>)
    requires
        countable(items@),
    ensures
        located_view(found) == seek(
            located_views(items@),
            TokenView::Delimiter(opening.spec_bytes(), closing.spec_bytes()),
            want,
            cursor_height as nat,
            cursor_height as nat,
        ),
{
    let ghost views = located_views(items@);
    let ghost pair = TokenView::Delimiter(opening.spec_bytes(), closing.spec_bytes());
    let mut lowest = cursor_height;
    let mut current = cursor_height;
    let mut i: usize = 0;
    proof {
        assert(views.skip(0) == views);
    }
    while i < items.len()
        invariant
            i <= items@.len(),
            views == located_views(items@),
            countable(items@),
            pair == TokenView::Delimiter(opening.spec_bytes(), closing.spec_bytes()),
            seek(views.skip(i as int), pair, want, lowest as nat, current as nat) == seek(
                views,
                pair,
                want,
                cursor_height as nat,
                cursor_height as nat,
            ),
        decreases items@.len() - i,
    {
        let m = items[i];
        proof {
            assert(views.skip(i as int)[0] == m@);
            assert(views.skip(i as int).drop_first() == views.skip(i + 1));
        }
        if m.token.is_delimiter() {
            let wanted = m.kind == want && m.token.is_pair(opening, closing);
            match m.stack_height {
                Some(height) => {
                    if height < lowest {
                        if wanted {
                            lowest = height;
                        } else {
                            return None;
                        }
                    }
                    let bump = match want {
                        Kind::Opening => m.kind == Kind::Closing,
                        Kind::Closing => m.kind == Kind::Opening,
                        Kind::NonPair => m.kind == Kind::NonPair,
                    };
                    current = if bump {
                        height + 1
                    } else {
                        height
                    };
                },
                None => {
                    if wanted && current == lowest {
                        return Some(m);
                    }
                },
            }
        }
        i += 1;
    }
    None
}

/// The matches, closing state and indentation of every line of a buffer,
/// with the nesting depths resolved.
pub struct ParsedBuffer {
    matches_by_line: Vec<Vec<Match>>,
    state_by_line: Vec<State>,
    indentation: Vec<u8>,
    tab_width: u8,
}

impl View for ParsedBuffer {
    type V = BufferView;

    closed spec fn view(&self) -> BufferView {
        BufferView {
            lines: line_views(self.matches_by_line@),
            states: state_views(self.state_by_line@),
            indentation: self.indentation@,
            tab_width: self.tab_width,
        }
    }
}

/// The first line of a range, kept within the buffer.
fn clamp_start(line_count: usize, start_line: Option<usize>) -> (start: usize)
    ensures
        start == range_start(line_count as nat, start_line),
        start <= line_count,
{
    match start_line {
        Some(start) => if start <= line_count {
            start
        } else {
            line_count
        },
        None => 0,
    }
}

/// The end of a range, kept between its start and the end of the buffer.
fn clamp_end(line_count: usize, start: usize, old_end_line: Option<usize>) -> (end: usize)
    requires
        start <= line_count,
    ensures
        end == range_end(line_count as nat, start as int, old_end_line),
        start <= end <= line_count,
{
    match old_end_line {
        Some(end) => if end > line_count {
            line_count
        } else if end < start {
            start
        } else {
            end
        },
        None => line_count,
    }
}

/// How many of the lines parsed anew go into the buffer.
fn clamp_count(fresh: usize, start: usize, new_end_line: Option<usize>) -> (count: usize)
    ensures
        count == range_count(fresh as nat, start as int, new_end_line),
        count <= fresh,
{
    match new_end_line {
        Some(end) => if end <= start {
            0
        } else if end - start > fresh {
            fresh
        } else {
            end - start
        },
        None => fresh,
    }
}

/// Replaces `items[start..end]` by `fresh`.
fn splice<T>(items: &mut Vec<T>, start: usize, end: usize, fresh: Vec<T>)
    requires
        start <= end <= old(items)@.len(),
    ensures
        final(items)@ == old(items)@.take(start as int) + fresh@ + old(items)@.skip(end as int),
{
    let mut fresh = fresh;
    let mut tail = items.split_off(end);
    items.truncate(start);
    items.append(&mut fresh);
    items.append(&mut tail);
}

/// The views of lines put together from three parts.
proof fn lemma_line_views_splice(
    old_lines: Seq<Vec<Match>>,
    fresh: Seq<Vec<Match>>,
    start: int,
    end: int,
)
    requires
        0 <= start <= end <= old_lines.len(),
    ensures
        line_views(old_lines.take(start) + fresh + old_lines.skip(end)) == line_views(
            old_lines,
        ).take(start) + line_views(fresh) + line_views(old_lines).skip(end),
{
    assert(line_views(old_lines.take(start) + fresh + old_lines.skip(end)) =~= line_views(
        old_lines,
    ).take(start) + line_views(fresh) + line_views(old_lines).skip(end));
}

/// The views of states put together from three parts.
proof fn lemma_state_views_splice(
    old_states: Seq<State>,
    fresh: Seq<State>,
    start: int,
    end: int,
)
    requires
        0 <= start <= end <= old_states.len(),
    ensures
        state_views(old_states.take(start) + fresh + old_states.skip(end)) == state_views(
            old_states,
        ).take(start) + state_views(fresh) + state_views(old_states).skip(end),
{
    assert(state_views(old_states.take(start) + fresh + old_states.skip(end)) =~= state_views(
        old_states,
    ).take(start) + state_views(fresh) + state_views(old_states).skip(end));
}

/// Resolved lines are well-formed where the lines they come from stand in
/// rising columns.
proof fn lemma_resolved_wf(lines: Seq<Seq<MatchView>>)
    requires
        forall|l: int| 0 <= l < lines.len() ==> spaced(#[trigger] lines[l]),
    ensures
        forall|l: int| 0 <= l < lines.len() ==> spaced(#[trigger] resolved(lines)[l]),
        resolved(resolved(lines)) == resolved(lines),
        resolved(lines).len() == lines.len(),
{
    lemma_resolved_idempotent(lines);
    assert forall|l: int| 0 <= l < lines.len() implies spaced(#[trigger] resolved(lines)[l]) by {
        let before = lines[l];
        let after = resolved(lines)[l];
        assert(spaced(before));
        assert forall|k: int| 0 <= k < after.len() implies (#[trigger] after[k]).len() >= 1 by {
            assert(before[k].len() >= 1);
        }
        assert forall|j: int, k: int| 0 <= j < k < after.len() implies (#[trigger] after[j]).col
            + after[j].len() <= (#[trigger] after[k]).col by {
            assert(before[j].col + before[j].len() <= before[k].col);
        }
    }
}

impl ParsedBuffer {
    /// Whether the buffer is well-formed.
    pub open spec fn wf(&self) -> bool {
        self@.wf()
    }

    /// A well-formed buffer has a well-formed view.
    pub proof fn lemma_wf(&self)
        requires
            self.wf(),
        ensures
            self@.wf(),
    {
    }

    /// Puts a buffer together from the parts of a scan and resolves the
    /// depths.
    pub(crate) fn assemble(
        matches_by_line: Vec<Vec<Match>>,
        state_by_line: Vec<State>,
        indentation: Vec<u8>,
        tab_width: u8,
    ) -> (buffer: ParsedBuffer)
        requires
            state_by_line@.len() == matches_by_line@.len(),
            indentation@.len() == matches_by_line@.len(),
            forall|l: int|
                0 <= l < state_by_line@.len() ==> (#[trigger] state_views(
                    state_by_line@,
                )[l]).crosses_lines(),
            forall|l: int|
                0 <= l < matches_by_line@.len() ==> spaced(
                    #[trigger] line_views(matches_by_line@)[l],
                ),
        ensures
            buffer.wf(),
            buffer@ == (BufferView {
                lines: resolved(line_views(matches_by_line@)),
                states: state_views(state_by_line@),
                indentation: indentation@,
                tab_width,
            }),
    {
        let mut buffer = ParsedBuffer { matches_by_line, state_by_line, indentation, tab_width };
        buffer.recalculate_stack_heights();
        buffer
    }

    /// Resolves the nesting depths of all delimiters anew, over all lines as
    /// one stream: every match gets the depth that resolution gives it, and
    /// loses the depth it had where resolution gives it none. Nothing else
    /// of the buffer changes. On a well-formed buffer the depths are the
    /// resolved ones already, and nothing changes at all.
    pub fn recalculate_stack_heights(&mut self)
        requires
            old(self)@.lined_up(),
        ensures
            final(self).wf(),
            final(self)@ == (BufferView { lines: resolved(old(self)@.lines), ..old(self)@ }),
            old(self).wf() ==> final(self)@ == old(self)@,
    {
        let ghost before = self@.lines;
        resolve(&mut self.matches_by_line);
        proof {
            lemma_resolved_wf(before);
            let lines = self.matches_by_line@;
            assert forall|l: int, k: int|
                0 <= l < self@.lines.len() && 0 <= k < self@.lines[l].len()
                    && (#[trigger] self@.lines[l][k]).stack_height is Some
                implies self@.lines[l][k].stack_height->0 < usize::MAX by {
                assert(self@.lines[l][k] == lines[l]@[k]@);
                assert(lines[l]@[k].stack_height is Some);
            }
        }
    }

    /// Parses the lines of a buffer in the language of the given name. There
    /// is no buffer for a name that is not known.
    pub fn parse(filetype: &str, tab_width: u8, lines: &[&str]) -> (buffer: Option<ParsedBuffer>)
        ensures
            match rules_for(filetype.spec_bytes()) {
                Some(rules) => buffer is Some && buffer->0.wf() && buffer->0@ == parsed(
                    rule_views(rules),
                    joined(line_bytes(lines@)),
                    StateView::Normal,
                    tab_width,
                ),
                None => buffer is None,
            },
    {
        crate::parser::parse_filetype(filetype, tab_width, lines, State::Normal)
    }

    /// Parses the lines `lines` anew in place of the lines from `start_line`
    /// up to `old_end_line`, and resolves the depths over the whole buffer.
    ///
    /// The range is kept within the buffer; without a start it begins at the
    /// first line, without an end it runs to the last. The new lines are
    /// scanned from the state that the line before the range ends in. Of the
    /// lines parsed, those up to `new_end_line` go into the buffer, all of
    /// them where none is given. Returns whether the language is known; for
    /// one that is not, the buffer stays as it is.
    #[verifier::rlimit(50)]
    pub fn reparse_range(
        &mut self,
        filetype: &str,
        lines: &[&str],
        start_line: Option<usize>,
        old_end_line: Option<usize>,
        new_end_line: Option<usize>,
    ) -> (updated: bool)
        requires
            old(self).wf(),
        ensures
            final(self).wf(),
            match rules_for(filetype.spec_bytes()) {
                Some(rules) => updated && final(self)@ == old(self)@.reparsed(
                    rule_views(rules),
                    joined(line_bytes(lines@)),
                    start_line,
                    old_end_line,
                    new_end_line,
                ),
                None => !updated && final(self)@ == old(self)@,
            },
    {
        let matcher = match Matcher::for_filetype(filetype) {
            Some(matcher) => matcher,
            None => {
                return false;
            },
        };
        let max_line = self.matches_by_line.len();
        let start = clamp_start(max_line, start_line);
        let end = clamp_end(max_line, start, old_end_line);
        let initial_state = if start > 0 {
            self.state_by_line[start - 1]
        } else {
            State::Normal
        };
        let text = join_lines(lines);
        let (mut fresh_lines, mut fresh_states) = scan(&matcher, text.as_slice(), initial_state);
        let mut fresh_indentation = indent_levels_of::<16>(text.as_slice(), self.tab_width);
        proof {
            assert(text@.len() == text.len());
            lemma_scan_shape(matcher@, text@, initial_state@);
            lemma_split_lines_len(text@);
            assert(fresh_lines@.len() == line_views(fresh_lines@).len());
            assert(fresh_states@.len() == state_views(fresh_states@).len());
        }
        let count = clamp_count(fresh_lines.len(), start, new_end_line);
        let ghost scanned = scan_spec(matcher@, text@, initial_state@);
        fresh_lines.truncate(count);
        fresh_states.truncate(count);
        fresh_indentation.truncate(count);
        proof {
            assert(line_views(fresh_lines@) =~= scanned.lines.take(count as int));
            assert(state_views(fresh_states@) =~= scanned.states.take(count as int));
            assert forall|l: int| 0 <= l < fresh_lines@.len() implies spaced(
                #[trigger] line_views(fresh_lines@)[l],
            ) by {
                assert(line_views(fresh_lines@)[l] == scanned.lines[l]);
            }
            assert forall|l: int| 0 <= l < fresh_states@.len() implies (#[trigger] state_views(
                fresh_states@,
            )[l]).crosses_lines() by {
                assert(state_views(fresh_states@)[l] == scanned.states[l]);
            }
        }
        self.replace_lines(start, end, fresh_lines, fresh_states, fresh_indentation);
        true
    }

    /// Puts the given lines in place of the lines from `start` up to `end`
    /// and resolves the depths over the whole buffer.
    #[verifier::rlimit(50)]
    fn replace_lines(
        &mut self,
        start: usize,
        end: usize,
        fresh_lines: Vec<Vec<Match>>,
        fresh_states: Vec<State>,
        fresh_indentation: Vec<u8>,
    )
        requires
            old(self).wf(),
            start <= end <= old(self)@.lines.len(),
            fresh_states@.len() == fresh_lines@.len(),
            fresh_indentation@.len() == fresh_lines@.len(),
            forall|l: int|
                0 <= l < fresh_states@.len() ==> (#[trigger] state_views(
                    fresh_states@,
                )[l]).crosses_lines(),
            forall|l: int|
                0 <= l < fresh_lines@.len() ==> spaced(#[trigger] line_views(fresh_lines@)[l]),
        ensures
            final(self).wf(),
            final(self)@ == (BufferView {
                lines: resolved(
                    old(self)@.lines.take(start as int) + line_views(fresh_lines@) + old(
                        self,
                    )@.lines.skip(end as int),
                ),
                states: old(self)@.states.take(start as int) + state_views(fresh_states@) + old(
                    self,
                )@.states.skip(end as int),
                indentation: old(self)@.indentation.take(start as int) + fresh_indentation@ + old(
                    self,
                )@.indentation.skip(end as int),
                tab_width: old(self)@.tab_width,
            }),
    {
        let ghost before = self@;
        let ghost count = fresh_lines@.len() as int;
        let ghost fresh = line_views(fresh_lines@);
        let ghost fresh_views = state_views(fresh_states@);
        proof {
            lemma_line_views_splice(
                self.matches_by_line@,
                fresh_lines@,
                start as int,
                end as int,
            );
            lemma_state_views_splice(self.state_by_line@, fresh_states@, start as int, end as int);
        }
        splice(&mut self.matches_by_line, start, end, fresh_lines);
        splice(&mut self.state_by_line, start, end, fresh_states);
        splice(&mut self.indentation, start, end, fresh_indentation);
        proof {
            let merged = self@.lines;
            assert(merged == before.lines.take(start as int) + fresh + before.lines.skip(
                end as int,
            ));
            assert forall|l: int| 0 <= l < merged.len() implies spaced(#[trigger] merged[l]) by {
                if l < start {
                    assert(merged[l] == before.lines[l]);
                } else if l < start + count {
                    assert(merged[l] == fresh[l - start]);
                } else {
                    assert(merged[l] == before.lines[l - start - count + end]);
                }
            }
            let states = self@.states;
            assert forall|l: int| 0 <= l < states.len() implies (#[trigger] states[l]).crosses_lines() by {
                if l < start {
                    assert(states[l] == before.states[l]);
                } else if l < start + count {
                    assert(states[l] == fresh_views[l - start]);
                } else {
                    assert(states[l] == before.states[l - start - count + end]);
                }
            }
        }
        self.recalculate_stack_heights();
    }

    /// The matches of a line; none for a line that the buffer does not have.
    pub fn line_matches(&self, line_number: usize) -> (matches: Option<Vec<Match>>)
        requires
            self.wf(),
        ensures
            matches is Some <==> line_number < self@.lines.len(),
            matches is Some ==> match_views(matches->0@) == self@.lines[line_number as int],
    {
        if line_number < self.matches_by_line.len() {
            Some(copy_line(&self.matches_by_line[line_number]))
        } else {
            None
        }
    }

    /// The state in which a line ends; none for a line that the buffer does
    /// not have.
    pub fn line_state(&self, line_number: usize) -> (state: Option<State>)
        requires
            self.wf(),
        ensures
            state is Some <==> line_number < self@.lines.len(),
            state is Some ==> state->0@ == self@.states[line_number as int],
    {
        if line_number < self.state_by_line.len() {
            Some(self.state_by_line[line_number])
        } else {
            None
        }
    }

    /// The indentation width of a line; none for a line that the buffer does
    /// not have.
    pub fn line_indentation(&self, line_number: usize) -> (width: Option<u8>)
        requires
            self.wf(),
        ensures
            width is Some <==> line_number < self@.lines.len(),
            width is Some ==> width->0 == self@.indentation[line_number as int],
    {
        if line_number < self.indentation.len() {
            Some(self.indentation[line_number])
        } else {
            None
        }
    }

    /// The matches on one side of the cursor, in document order.
    #[verifier::rlimit(50)]
    fn collect(&self, side: Side, line: usize, col: usize) -> (found: Vec<MatchWithLine>)
        requires
            self.wf(),
        ensures
            located_views(found@) == select(located(self@.lines), side, line as nat, col as nat),
            countable(found@),
    {
        let n = self.matches_by_line.len();
        let ghost lines = self@.lines;
        let ghost items = numbered(lines);
        let (lo, hi) = match side {
            Side::Before => (
                0,
                if line < n {
                    line + 1
                } else {
                    n
                },
            ),
            _ => (
                if line < n {
                    line
                } else {
                    n
                },
                n,
            ),
        };
        let mut found: Vec<MatchWithLine> = Vec::new();
        let mut l: usize = lo;
        proof {
            lemma_select_lines(lines, 0, lo as int, side, line as nat, col as nat);
            assert(items.take(0) == Seq::<Seq<MatchWithLineView>>::empty());
            assert(located_views(found@) == Seq::<MatchWithLineView>::empty());
        }
        while l < hi
            invariant
                self.wf(),
                lines == self@.lines,
                items == numbered(lines),
                n == lines.len(),
                lo <= l <= hi <= n,
                side is Before ==> hi <= line + 1,
                !(side is Before) ==> lo == line || lo == n,
                located_views(found@) == select(
                    stream_of(items.take(l as int)),
                    side,
                    line as nat,
                    col as nat,
                ),
                countable(found@),
            decreases hi - l,
        {
            let row = &self.matches_by_line[l];
            let ghost done = select(stream_of(items.take(l as int)), side, line as nat, col as nat);
            let mut k: usize = 0;
            proof {
                assert(items[l as int].take(0) == Seq::<MatchWithLineView>::empty());
                assert(done + Seq::<MatchWithLineView>::empty() == done);
            }
            while k < row.len()
                invariant
                    self.wf(),
                    lines == self@.lines,
                    items == numbered(lines),
                    l < lines.len(),
                    row@ == self.matches_by_line@[l as int]@,
                    k <= row@.len(),
                    lo <= l < hi,
                    side is Before ==> hi <= line + 1,
                    !(side is Before) ==> line <= l,
                    located_views(found@) == done + select(
                        items[l as int].take(k as int),
                        side,
                        line as nat,
                        col as nat,
                    ),
                    countable(found@),
                decreases row@.len() - k,
            {
                let m = row[k];
                let keep = match side {
                    Side::From => l != line || m.col >= col,
                    Side::After => l != line || m.col > col,
                    Side::Before => l != line || m.col < col,
                };
                let ghost before = located_views(found@);
                let ghost part = select(
                    items[l as int].take(k as int),
                    side,
                    line as nat,
                    col as nat,
                );
                proof {
                    let item = m@.on_line(l as nat);
                    assert(lines[l as int][k as int] == m@);
                    assert(items[l as int][k as int] == item);
                    assert(items[l as int].take(k + 1).drop_last() == items[l as int].take(
                        k as int,
                    ));
                    assert(items[l as int].take(k + 1).last() == item);
                    assert(keep == on_side(item, side, line as nat, col as nat));
                    assert(m@.stack_height is Some ==> m@.stack_height->0 < usize::MAX);
                }
                if keep {
                    found.push(m.with_line(l));
                    proof {
                        assert(located_views(found@) == before.push(m@.on_line(l as nat)));
                        assert((done + part).push(m@.on_line(l as nat)) == done + part.push(
                            m@.on_line(l as nat),
                        ));
                    }
                }
                k += 1;
            }
            proof {
                assert(items[l as int].take(k as int) == items[l as int]);
                lemma_offset_next(items, l as int);
                lemma_select_add(
                    stream_of(items.take(l as int)),
                    items[l as int],
                    side,
                    line as nat,
                    col as nat,
                );
            }
            l += 1;
        }
        proof {
            lemma_select_lines(lines, hi as int, n as int, side, line as nat, col as nat);
            assert(items.take(n as int) == items);
        }
        found
    }

    /// The matches at the cursor and after it, in document order: those of
    /// the cursor's line from the column on, then those of the lines below.
    pub fn iter_from(&self, line_number: usize, col: usize) -> (found: Vec<MatchWithLine>)
        requires
            self.wf(),
        ensures
            located_views(found@) == self@.matches_from(line_number as nat, col as nat),
            countable(found@),
    {
        self.collect(Side::From, line_number, col)
    }

    /// The matches before the cursor, the nearest first: those of the
    /// cursor's line left of the column, then those of the lines above.
    pub fn iter_to(&self, line_number: usize, col: usize) -> (found: Vec<MatchWithLine>)
        requires
            self.wf(),
        ensures
            located_views(found@) == self@.matches_to(line_number as nat, col as nat),
            countable(found@),
    {
        reversed(self.collect(Side::Before, line_number, col))
    }

    /// The name of the span that the cursor is in, if it is in one: that of
    /// the last span opened on the line at or before the column and not
    /// closed before it, or else that of the span in which the line ends.
    pub fn span_at(&self, line_number: usize, col: usize) -> (name: Option<String>)
        requires
            self.wf(),
        ensures
            name_bytes(name) == self@.span_at(line_number as nat, col as nat),
    {
        if line_number >= self.matches_by_line.len() {
            return None;
        }
        let row = &self.matches_by_line[line_number];
        assert(self@.lines[line_number as int] == match_views(row@));
        match enclosing_span(row, col) {
            Some(name) => {
                return Some(name.to_owned());
            },
            None => {},
        }
        match self.state_by_line[line_number] {
            State::InInlineSpan(name) => Some(name.to_owned()),
            State::InBlockSpan(name) => Some(name.to_owned()),
            _ => None,
        }
    }

    /// The match that covers the column on the line, if there is one.
    pub fn match_at(&self, line_number: usize, col: usize) -> (found: Option<Match>)
        requires
            self.wf(),
        ensures
            match_view(found) == self@.match_at(line_number as nat, col as nat),
    {
        if line_number >= self.matches_by_line.len() {
            return None;
        }
        let row = &self.matches_by_line[line_number];
        let ghost line = self@.lines[line_number as int];
        let mut k: usize = 0;
        while k < row.len()
            invariant
                k <= row@.len(),
                line_number < self@.lines.len(),
                line == self@.lines[line_number as int],
                line == match_views(row@),
                first_covering(line, col as nat, k as int) == first_covering(line, col as nat, 0),
            decreases row@.len() - k,
        {
            let m = row[k];
            assert(line[k as int] == m@);
            if m.col <= col && col - m.col < m.len() {
                return Some(m);
            }
            k += 1;
        }
        None
    }

    /// The pair that the match at the cursor belongs to, the opening match
    /// first; none where there is no match, no partner, or the match is a
    /// delimiter without a depth or a comment marker.
    pub fn match_pair(&self, line_number: usize, col: usize) -> (pair: Option<
        (MatchWithLine, MatchWithLine),
    >)
        requires
            self.wf(),
        ensures
            pair_view(pair) == self@.pair_at(line_number as nat, col as nat),
    {
        let m = match self.match_at(line_number, col) {
            Some(m) => m,
            None => {
                return None;
            },
        };
        match m.token {
            Token::LineComment(_) => {
                return None;
            },
            Token::BlockComment(_, _) => {
                return None;
            },
            Token::Delimiter(_, _) => {
                if m.stack_height.is_none() {
                    return None;
                }
            },
            _ => {},
        }
        let at_cursor = m.with_line(line_number);
        match m.kind {
            Kind::Opening => {
                let after = self.collect(Side::After, line_number, m.col);
                match first_partner_in(&after, &m.token, m.stack_height) {
                    Some(closer) => Some((at_cursor, closer)),
                    None => None,
                }
            },
            Kind::Closing => {
                let before = self.iter_to(line_number, m.col);
                match first_partner_in(&before, &m.token, m.stack_height) {
                    Some(opener) => Some((opener, at_cursor)),
                    None => None,
                }
            },
            Kind::NonPair => None,
        }
    }

    /// The nesting depth at the cursor: that of the first match with a depth
    /// from the cursor on, one more if that match closes; failing that, that
    /// of the nearest match with a depth before the cursor, one more if that
    /// match opens; failing that, zero.
    pub fn stack_height_at(&self, line_number: usize, col: usize) -> (height: usize)
        requires
            self.wf(),
        ensures
            height == self@.height_at(line_number as nat, col as nat),
    {
        let ahead = self.iter_from(line_number, col);
        match first_height_in(&ahead, Kind::Closing) {
            Some(height) => height,
            None => {
                let behind = self.iter_to(line_number, col);
                match first_height_in(&behind, Kind::Opening) {
                    Some(height) => height,
                    None => 0,
                }
            },
        }
    }

    /// The opening delimiter without a partner, before the cursor, that a
    /// closing delimiter `closing` put at the cursor would pair with.
    pub fn unmatched_opening_before(
        &self,
        opening: &str,
        closing: &str,
        line_number: usize,
        col: usize,
    ) -> (found: Option<MatchWithLine>)
        requires
            self.wf(),
        ensures
            located_view(found) == self@.unmatched_opening_before(
                opening.spec_bytes(),
                closing.spec_bytes(),
                line_number as nat,
                col as nat,
            ),
    {
        let cursor_height = self.stack_height_at(line_number, col);
        let behind = self.iter_to(line_number, col);
        seek_in(&behind, opening, closing, Kind::Opening, cursor_height)
    }

    /// The closing delimiter without a partner, at or after the cursor, that
    /// an opening delimiter `opening` put at the cursor would pair with.
    pub fn unmatched_closing_after(
        &self,
        opening: &str,
        closing: &str,
        line_number: usize,
        col: usize,
    ) -> (found: Option<MatchWithLine>)
        requires
            self.wf(),
        ensures
            located_view(found) == self@.unmatched_closing_after(
                opening.spec_bytes(),
                closing.spec_bytes(),
                line_number as nat,
                col as nat,
            ),
    {
        let cursor_height = self.stack_height_at(line_number, col);
        let ahead = self.iter_from(line_number, col);
        seek_in(&ahead, opening, closing, Kind::Closing, cursor_height)
    }

    /// The number of lines in the buffer.
    pub fn line_count(&self) -> (n: usize)
        ensures
            n == self@.lines.len(),
    {
        self.matches_by_line.len()
    }
}

} // verus!

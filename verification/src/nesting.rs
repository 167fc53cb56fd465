//! Nesting depth of delimiters: which closing delimiter pairs with which
//! opening one, and how deep each pair lies.

use vstd::prelude::*;
use crate::parser::matcher::{height_view, Kind, Match, MatchView, Token, TokenView};
use crate::parser::parse::line_views;
use crate::stream::{
    lemma_offset_end, lemma_offset_next, lemma_offset_zero, lemma_position_exists,
    lemma_position_unique, lemma_same_shape, lemma_stream_index, offset, same_shape, stream_of,
};

verus! {

/// Where resolution stands after a prefix of the stream: the positions of the
/// opening delimiters that are still open, outermost first, and for each
/// position the depth given to it so far and the position it is paired with.
pub struct Resolution {
    pub stack: Seq<int>,
    pub heights: Seq<Option<nat>>,
    pub partners: Seq<Option<int>>,
}

/// The tokens of the matches at the positions on a stack.
pub open spec fn stack_tokens(stream: Seq<MatchView>, stack: Seq<int>) -> Seq<TokenView> {
    Seq::new(stack.len(), |p: int| stream[stack[p]].token)
}

/// The index of the last of `tokens` that equals `token`, or -1.
pub open spec fn last_same(tokens: Seq<TokenView>, token: TokenView) -> int
    decreases tokens.len(),
{
    if tokens.len() == 0 {
        -1
    } else if tokens.last() == token {
        tokens.len() - 1
    } else {
        last_same(tokens.drop_last(), token)
    }
}

/// Resolution after the match at position `i`.
///
/// An opening delimiter goes on the stack. A closing delimiter looks down
/// the stack for the nearest opening delimiter of its own pair: the two are
/// paired and get the number of entries below the opening one as their
/// depth, and what lay above it is dropped without a depth. A closing
/// delimiter that finds none gets no depth. Matches that are no delimiters
/// take no part.
pub open spec fn resolve_step(stream: Seq<MatchView>, before: Resolution, i: int) -> Resolution {
    let m = stream[i];
    if m.opens() {
        Resolution { stack: before.stack.push(i), ..before }
    } else if !m.closes() {
        before
    } else {
        let p = last_same(stack_tokens(stream, before.stack), m.token);
        if p < 0 {
            before
        } else {
            Resolution {
                stack: before.stack.take(p),
                heights: before.heights.update(before.stack[p], Some(p as nat)).update(
                    i,
                    Some(p as nat),
                ),
                partners: before.partners.update(before.stack[p], Some(i)).update(
                    i,
                    Some(before.stack[p]),
                ),
            }
        }
    }
}

/// Resolution after the first `n` matches of the stream.
pub open spec fn resolve_upto(stream: Seq<MatchView>, n: nat) -> Resolution
    decreases n,
{
    if n == 0 {
        Resolution {
            stack: Seq::empty(),
            heights: Seq::new(stream.len(), |i: int| None),
            partners: Seq::new(stream.len(), |i: int| None),
        }
    } else {
        resolve_step(stream, resolve_upto(stream, (n - 1) as nat), n - 1)
    }
}

/// The depth of every match of a stream once all of it is resolved. What is
/// still open at the end has no depth.
pub open spec fn resolved_heights(stream: Seq<MatchView>) -> Seq<Option<nat>> {
    resolve_upto(stream, stream.len()).heights
}

/// The lines with every match given its resolved depth.
pub open spec fn resolved(lines: Seq<Seq<MatchView>>) -> Seq<Seq<MatchView>> {
    Seq::new(
        lines.len(),
        |l: int|
            Seq::new(
                lines[l].len(),
                |k: int|
                    lines[l][k].with_height(
                        resolved_heights(stream_of(lines))[offset(lines, l) + k],
                    ),
            ),
    )
}

/// Whether two streams differ in nothing but the depths of their matches.
pub open spec fn same_but_heights(a: Seq<MatchView>, b: Seq<MatchView>) -> bool {
    &&& a.len() == b.len()
    &&& forall|i: int| 0 <= i < a.len() ==> (#[trigger] a[i]).with_height(None) == b[i].with_height(None)
}

/// What the search down the stack finds: the last entry with the token, and
/// none where it finds nothing.
pub proof fn lemma_last_same_bounds(tokens: Seq<TokenView>, token: TokenView)
    ensures
        -1 <= last_same(tokens, token) < tokens.len(),
        last_same(tokens, token) >= 0 ==> tokens[last_same(tokens, token)] == token,
        forall|q: int|
            last_same(tokens, token) < q < tokens.len() ==> #[trigger] tokens[q] != token,
    decreases tokens.len(),
{
    if tokens.len() > 0 && tokens.last() != token {
        let shorter = tokens.drop_last();
        lemma_last_same_bounds(shorter, token);
        assert forall|q: int| last_same(tokens, token) < q < tokens.len() implies #[trigger] tokens[q]
            != token by {
            if q < shorter.len() {
                assert(shorter[q] == tokens[q]);
            }
        }
    }
}

/// What holds of a resolution whatever the stream: the stack holds positions
/// of the prefix, in rising order, and only they can still get a depth.
pub proof fn lemma_resolve_shape(stream: Seq<MatchView>, n: nat)
    requires
        n <= stream.len(),
    ensures
        resolve_upto(stream, n).heights.len() == stream.len(),
        resolve_upto(stream, n).stack.len() <= n,
        forall|p: int|
            0 <= p < resolve_upto(stream, n).stack.len() ==> 0 <= #[trigger] resolve_upto(
                stream,
                n,
            ).stack[p] < n,
        forall|p: int, q: int|
            0 <= p < q < resolve_upto(stream, n).stack.len() ==> resolve_upto(stream, n).stack[p]
                < resolve_upto(stream, n).stack[q],
        forall|p: int|
            0 <= p < resolve_upto(stream, n).stack.len() ==> resolve_upto(stream, n).heights[#[trigger] resolve_upto(
                stream,
                n,
            ).stack[p]] is None,
        forall|i: int| n <= i < stream.len() ==> resolve_upto(stream, n).heights[i] is None,
        forall|i: int|
            0 <= i < stream.len() && resolve_upto(stream, n).heights[i] is Some ==> resolve_upto(
                stream,
                n,
            ).heights[i]->0 < n,
    decreases n,
{
    if n > 0 {
        lemma_resolve_shape(stream, (n - 1) as nat);
        let before = resolve_upto(stream, (n - 1) as nat);
        let m = stream[n - 1];
        if m.closes() {
            lemma_last_same_bounds(stack_tokens(stream, before.stack), m.token);
        }
    }
}

/// Only delimiters take part: what stands on the stack is an opening
/// delimiter, and nothing but an opening or closing delimiter has a depth.
pub proof fn lemma_resolve_delimiters(stream: Seq<MatchView>, n: nat)
    requires
        n <= stream.len(),
    ensures
        forall|p: int|
            0 <= p < resolve_upto(stream, n).stack.len() ==> {
                let at = #[trigger] resolve_upto(stream, n).stack[p];
                stream[at].opens()
            },
        forall|i: int|
            0 <= i < stream.len() && (#[trigger] resolve_upto(stream, n).heights[i]) is Some
                ==> stream[i].opens() || stream[i].closes(),
    decreases n,
{
    if n > 0 {
        lemma_resolve_delimiters(stream, (n - 1) as nat);
        lemma_resolve_shape(stream, (n - 1) as nat);
        let before = resolve_upto(stream, (n - 1) as nat);
        let m = stream[n - 1];
        if m.closes() {
            lemma_last_same_bounds(stack_tokens(stream, before.stack), m.token);
        }
    }
}

/// A closing delimiter before which no opening delimiter of its pair
/// stands gets no depth.
pub proof fn lemma_closer_without_opener(stream: Seq<MatchView>, j: int, n: nat)
    requires
        0 <= j < n <= stream.len(),
        stream[j].closes(),
        forall|i: int|
            0 <= i < j && (#[trigger] stream[i]).opens() ==> stream[i].token != stream[j].token,
    ensures
        resolve_upto(stream, n).heights[j] is None,
    decreases n,
{
    let before = resolve_upto(stream, (n - 1) as nat);
    let m = stream[n - 1];
    lemma_resolve_shape(stream, (n - 1) as nat);
    lemma_resolve_delimiters(stream, (n - 1) as nat);
    if m.closes() {
        lemma_last_same_bounds(stack_tokens(stream, before.stack), m.token);
    }
    if n - 1 > j {
        lemma_closer_without_opener(stream, j, (n - 1) as nat);
        let p = last_same(stack_tokens(stream, before.stack), m.token);
        if m.closes() && p >= 0 {
            assert(stream[before.stack[p]].opens());
        }
    } else {
        let p = last_same(stack_tokens(stream, before.stack), m.token);
        if p >= 0 {
            assert(stack_tokens(stream, before.stack)[p] == stream[before.stack[p]].token);
            assert(stream[before.stack[p]].opens());
        }
    }
}

/// An opening delimiter after which no closing delimiter of its pair stands
/// gets no depth.
pub proof fn lemma_opener_without_closer(stream: Seq<MatchView>, i: int, n: nat)
    requires
        0 <= i < stream.len(),
        n <= stream.len(),
        stream[i].opens(),
        forall|j: int|
            i < j < stream.len() && (#[trigger] stream[j]).closes() ==> stream[j].token
                != stream[i].token,
    ensures
        resolve_upto(stream, n).heights[i] is None,
    decreases n,
{
    if n == 0 {
    } else {
        let before = resolve_upto(stream, (n - 1) as nat);
        let m = stream[n - 1];
        lemma_resolve_shape(stream, (n - 1) as nat);
        lemma_opener_without_closer(stream, i, (n - 1) as nat);
        if m.closes() {
            let tokens = stack_tokens(stream, before.stack);
            lemma_last_same_bounds(tokens, m.token);
            let p = last_same(tokens, m.token);
            if p >= 0 && before.stack[p] == i {
                assert(tokens[p] == stream[i].token);
                assert(stream[n - 1].token != stream[i].token);
            }
        }
    }
}

/// Resolution does not look at the depths that the matches already carry.
pub proof fn lemma_resolve_ignores_heights(a: Seq<MatchView>, b: Seq<MatchView>, n: nat)
    requires
        same_but_heights(a, b),
        n <= a.len(),
    ensures
        resolve_upto(a, n) == resolve_upto(b, n),
    decreases n,
{
    if n > 0 {
        lemma_resolve_ignores_heights(a, b, (n - 1) as nat);
        lemma_resolve_shape(a, (n - 1) as nat);
        let before = resolve_upto(a, (n - 1) as nat);
        assert(a[n - 1].with_height(None) == b[n - 1].with_height(None));
        assert(stack_tokens(a, before.stack) =~= stack_tokens(b, before.stack)) by {
            assert forall|p: int| 0 <= p < before.stack.len() implies a[before.stack[p]].token
                == b[before.stack[p]].token by {
                assert(a[before.stack[p]].with_height(None) == b[before.stack[p]].with_height(
                    None,
                ));
            }
        }
    } else {
        assert(resolve_upto(a, 0).heights =~= resolve_upto(b, 0).heights);
        assert(resolve_upto(a, 0).partners =~= resolve_upto(b, 0).partners);
    }
}

/// Lines that differ in nothing but the depths of their matches resolve to
/// the same lines.
pub proof fn lemma_resolved_by_matches(a: Seq<Seq<MatchView>>, b: Seq<Seq<MatchView>>)
    requires
        same_shape(a, b),
        forall|l: int, k: int|
            0 <= l < a.len() && 0 <= k < a[l].len() ==> (#[trigger] a[l][k]).with_height(None)
                == b[l][k].with_height(None),
    ensures
        resolved(a) == resolved(b),
        resolved_heights(stream_of(a)) == resolved_heights(stream_of(b)),
{
    let sa = stream_of(a);
    let sb = stream_of(b);
    lemma_same_shape(a, b, a.len() as int);
    lemma_offset_end(a);
    lemma_offset_end(b);
    assert forall|i: int| 0 <= i < sa.len() implies (#[trigger] sa[i]).with_height(None)
        == sb[i].with_height(None) by {
        let place = lemma_position_exists(a, i);
        lemma_same_shape(a, b, place.0);
        lemma_stream_index(a, place.0, place.1);
        lemma_stream_index(b, place.0, place.1);
    }
    lemma_resolve_ignores_heights(sa, sb, sa.len());
    assert forall|l: int| 0 <= l < a.len() implies #[trigger] resolved(a)[l] == resolved(b)[l] by {
        lemma_same_shape(a, b, l);
        assert forall|k: int| 0 <= k < a[l].len() implies #[trigger] resolved(a)[l][k] == resolved(
            b,
        )[l][k] by {
            assert(a[l][k].with_height(None) == b[l][k].with_height(None));
        }
        assert(resolved(a)[l] =~= resolved(b)[l]);
    }
    assert(resolved(a) =~= resolved(b));
}

/// Resolving lines that are resolved changes nothing.
pub proof fn lemma_resolved_idempotent(lines: Seq<Seq<MatchView>>)
    ensures
        resolved(resolved(lines)) == resolved(lines),
        same_shape(resolved(lines), lines),
{
    lemma_resolved_by_matches(resolved(lines), lines);
}

/// The tokens of the matches at the places on a stack of places.
spec fn entry_tokens(lines: Seq<Vec<Match>>, stack: Seq<(usize, usize)>) -> Seq<TokenView> {
    Seq::new(stack.len(), |p: int| lines[stack[p].0 as int]@[stack[p].1 as int].token@)
}

/// Whether every place on the stack is a place in the lines.
spec fn places_valid(lines: Seq<Vec<Match>>, stack: Seq<(usize, usize)>) -> bool {
    forall|p: int|
        0 <= p < stack.len() ==> (#[trigger] stack[p]).0 < lines.len() && stack[p].1
            < lines[stack[p].0 as int]@.len()
}

/// Whether the lines still hold the matches they started with, but for their
/// depths.
spec fn same_matches(lines: Seq<Vec<Match>>, views: Seq<Seq<MatchView>>) -> bool {
    &&& lines.len() == views.len()
    &&& forall|l: int| 0 <= l < lines.len() ==> (#[trigger] lines[l])@.len() == views[l].len()
    &&& forall|l: int, k: int|
        0 <= l < lines.len() && 0 <= k < lines[l]@.len() ==> (#[trigger] lines[l]@[k])@.with_height(
            None,
        ) == views[l][k].with_height(None)
}

/// Whether a stack of places holds the places of the positions on a stack.
spec fn stack_agrees(stack: Seq<(usize, usize)>, views: Seq<Seq<MatchView>>, positions: Seq<int>) -> bool {
    &&& stack.len() == positions.len()
    &&& forall|p: int|
        0 <= p < stack.len() ==> {
            &&& (#[trigger] stack[p]).0 < views.len()
            &&& stack[p].1 < views[stack[p].0 as int].len()
            &&& positions[p] == offset(views, stack[p].0 as int) + stack[p].1
        }
}

/// Whether the matches before position `n` carry the given depths, each
/// small enough to be counted one up.
spec fn heights_agree(
    lines: Seq<Vec<Match>>,
    views: Seq<Seq<MatchView>>,
    heights: Seq<Option<nat>>,
    n: int,
) -> bool {
    forall|l: int, k: int|
        0 <= l < views.len() && 0 <= k < views[l].len() && offset(views, l) + k < n ==> {
            &&& height_view((#[trigger] lines[l]@[k]).stack_height) == heights[offset(views, l) + k]
            &&& lines[l]@[k].stack_height is Some ==> lines[l]@[k].stack_height->0 < usize::MAX
        }
}

/// What the pass keeps true: after the first `n` matches of the stream, the
/// lines and the stack of places stand for the resolution of that prefix.
#[verifier::opaque]
spec fn in_step(
    lines: Seq<Vec<Match>>,
    stack: Seq<(usize, usize)>,
    views: Seq<Seq<MatchView>>,
    n: int,
) -> bool {
    &&& 0 <= n <= stream_of(views).len()
    &&& same_matches(lines, views)
    &&& stack_agrees(stack, views, resolve_upto(stream_of(views), n as nat).stack)
    &&& heights_agree(lines, views, resolve_upto(stream_of(views), n as nat).heights, n)
}

/// Whether `end` is `start` with the depth of one match set anew.
spec fn height_set(
    start: Seq<Vec<Match>>,
    end: Seq<Vec<Match>>,
    l: int,
    k: int,
    height: Option<usize>,
) -> bool {
    &&& end.len() == start.len()
    &&& forall|l2: int| 0 <= l2 < start.len() ==> (#[trigger] end[l2])@.len() == start[l2]@.len()
    &&& forall|l2: int, k2: int|
        0 <= l2 < start.len() && 0 <= k2 < start[l2]@.len() && !(l2 == l && k2 == k)
            ==> #[trigger] end[l2]@[k2] == start[l2]@[k2]
    &&& end[l]@[k].kind == start[l]@[k].kind
    &&& end[l]@[k].token == start[l]@[k].token
    &&& end[l]@[k].col == start[l]@[k].col
    &&& end[l]@[k].stack_height == height
}

/// Whether every depth in the lines can be counted one up without overflow.
pub open spec fn heights_countable(lines: Seq<Vec<Match>>) -> bool {
    forall|l: int, k: int|
        0 <= l < lines.len() && 0 <= k < lines[l]@.len() && (#[trigger] lines[l]@[k]).stack_height is Some
            ==> lines[l]@[k].stack_height->0 < usize::MAX
}

/// Before the first match nothing is resolved and nothing is open.
proof fn lemma_in_step_start(lines: Seq<Vec<Match>>)
    ensures
        in_step(lines, Seq::empty(), line_views(lines), 0),
{
    reveal(in_step);
    let views = line_views(lines);
    lemma_offset_zero(views);
}

/// What the pass may read off while it runs.
proof fn lemma_in_step_facts(
    lines: Seq<Vec<Match>>,
    stack: Seq<(usize, usize)>,
    views: Seq<Seq<MatchView>>,
    n: int,
)
    requires
        in_step(lines, stack, views, n),
    ensures
        lines.len() == views.len(),
        forall|l: int| 0 <= l < lines.len() ==> (#[trigger] lines[l])@.len() == views[l].len(),
        places_valid(lines, stack),
        entry_tokens(lines, stack) == stack_tokens(
            stream_of(views),
            resolve_upto(stream_of(views), n as nat).stack,
        ),
        stack.len() == resolve_upto(stream_of(views), n as nat).stack.len(),
{
    reveal(in_step);
    let stream = stream_of(views);
    let before = resolve_upto(stream, n as nat);
    assert forall|p: int| 0 <= p < stack.len() implies entry_tokens(lines, stack)[p]
        == stack_tokens(stream, before.stack)[p] by {
        let place = stack[p];
        lemma_stream_index(views, place.0 as int, place.1 as int);
        assert(lines[place.0 as int]@[place.1 as int]@.with_height(None)
            == views[place.0 as int][place.1 as int].with_height(None));
    }
    assert(entry_tokens(lines, stack) =~= stack_tokens(stream, before.stack));
}

/// The match at a place is the match at its position of the stream, but for
/// its depth.
proof fn lemma_in_step_match(
    lines: Seq<Vec<Match>>,
    stack: Seq<(usize, usize)>,
    views: Seq<Seq<MatchView>>,
    n: int,
    l: int,
    k: int,
)
    requires
        in_step(lines, stack, views, n),
        0 <= l < views.len(),
        0 <= k < views[l].len(),
    ensures
        0 <= offset(views, l) + k < stream_of(views).len(),
        stream_of(views)[offset(views, l) + k].kind == lines[l]@[k].kind,
        stream_of(views)[offset(views, l) + k].token == lines[l]@[k].token@,
{
    reveal(in_step);
    lemma_stream_index(views, l, k);
    assert(lines[l]@[k]@.with_height(None) == views[l][k].with_height(None));
}

/// A step that pairs nothing: the match loses its depth, and an opening
/// delimiter goes on the stack.
#[verifier::rlimit(50)]
proof fn lemma_step_unpaired(
    start: Seq<Vec<Match>>,
    end: Seq<Vec<Match>>,
    stack: Seq<(usize, usize)>,
    views: Seq<Seq<MatchView>>,
    l: int,
    k: int,
)
    requires
        0 <= l < views.len(),
        0 <= k < views[l].len(),
        in_step(start, stack, views, offset(views, l) + k),
        height_set(start, end, l, k, None),
        l <= usize::MAX,
        k <= usize::MAX,
        ({
            let stream = stream_of(views);
            let n = offset(views, l) + k;
            let m = stream[n];
            m.closes() ==> last_same(
                stack_tokens(stream, resolve_upto(stream, n as nat).stack),
                m.token,
            ) < 0
        }),
    ensures
        ({
            let m = stream_of(views)[offset(views, l) + k];
            in_step(
                end,
                if m.opens() {
                    stack.push((l as usize, k as usize))
                } else {
                    stack
                },
                views,
                offset(views, l) + k + 1,
            )
        }),
{
    reveal(in_step);
    let stream = stream_of(views);
    let n = offset(views, l) + k;
    let before = resolve_upto(stream, n as nat);
    let after = resolve_upto(stream, (n + 1) as nat);
    lemma_stream_index(views, l, k);
    lemma_resolve_shape(stream, n as nat);
    assert(after == resolve_step(stream, before, n));
    assert(after.heights == before.heights);
    assert forall|l2: int, k2: int|
        0 <= l2 < views.len() && 0 <= k2 < views[l2].len() && offset(views, l2) + k2 < n
            + 1 implies {
        &&& height_view((#[trigger] end[l2]@[k2]).stack_height) == after.heights[offset(views, l2)
            + k2]
        &&& end[l2]@[k2].stack_height is Some ==> end[l2]@[k2].stack_height->0 < usize::MAX
    } by {
        if !(l2 == l && k2 == k) {
            if offset(views, l2) + k2 == n {
                lemma_position_unique(views, l2, k2, l, k);
            }
            assert(end[l2]@[k2] == start[l2]@[k2]);
        }
    }
    assert forall|l2: int, k2: int|
        0 <= l2 < end.len() && 0 <= k2 < end[l2]@.len()
    implies (#[trigger] end[l2]@[k2])@.with_height(None) == views[l2][k2].with_height(None) by {
        assert(start[l2]@[k2]@.with_height(None) == views[l2][k2].with_height(None));
        if !(l2 == l && k2 == k) {
            assert(end[l2]@[k2] == start[l2]@[k2]);
        }
    }
}

/// A step that pairs a closing delimiter with the entry `p` of the stack:
/// both get the depth `p`, and the stack is cut down to what lay below.
#[verifier::rlimit(50)]
proof fn lemma_step_paired(
    start: Seq<Vec<Match>>,
    mid: Seq<Vec<Match>>,
    end: Seq<Vec<Match>>,
    stack: Seq<(usize, usize)>,
    views: Seq<Seq<MatchView>>,
    l: int,
    k: int,
    p: int,
)
    requires
        0 <= l < views.len(),
        0 <= k < views[l].len(),
        in_step(start, stack, views, offset(views, l) + k),
        0 <= p < stack.len(),
        p < usize::MAX,
        height_set(start, mid, stack[p].0 as int, stack[p].1 as int, Some(p as usize)),
        height_set(mid, end, l, k, Some(p as usize)),
        ({
            let stream = stream_of(views);
            let n = offset(views, l) + k;
            let m = stream[n];
            &&& m.closes()
            &&& p == last_same(
                stack_tokens(stream, resolve_upto(stream, n as nat).stack),
                m.token,
            )
        }),
    ensures
        in_step(end, stack.take(p), views, offset(views, l) + k + 1),
{
    reveal(in_step);
    let stream = stream_of(views);
    let n = offset(views, l) + k;
    let before = resolve_upto(stream, n as nat);
    let after = resolve_upto(stream, (n + 1) as nat);
    let ol = stack[p].0 as int;
    let ok = stack[p].1 as int;
    lemma_stream_index(views, l, k);
    lemma_stream_index(views, ol, ok);
    lemma_resolve_shape(stream, n as nat);
    assert(after == resolve_step(stream, before, n));
    assert(before.stack[p] == offset(views, ol) + ok);
    assert(before.stack[p] < n);
    assert forall|l2: int, k2: int|
        0 <= l2 < views.len() && 0 <= k2 < views[l2].len() && offset(views, l2) + k2 < n
            + 1 implies {
        &&& height_view((#[trigger] end[l2]@[k2]).stack_height) == after.heights[offset(views, l2)
            + k2]
        &&& end[l2]@[k2].stack_height is Some ==> end[l2]@[k2].stack_height->0 < usize::MAX
    } by {
        lemma_stream_index(views, l2, k2);
        if l2 == l && k2 == k {
        } else if l2 == ol && k2 == ok {
            assert(end[l2]@[k2] == mid[l2]@[k2]);
        } else {
            if offset(views, l2) + k2 == n {
                lemma_position_unique(views, l2, k2, l, k);
            }
            if offset(views, l2) + k2 == before.stack[p] {
                lemma_position_unique(views, l2, k2, ol, ok);
            }
            assert(mid[l2]@[k2] == start[l2]@[k2]);
            assert(end[l2]@[k2] == mid[l2]@[k2]);
        }
    }
    assert forall|l2: int, k2: int|
        0 <= l2 < end.len() && 0 <= k2 < end[l2]@.len()
    implies (#[trigger] end[l2]@[k2])@.with_height(None) == views[l2][k2].with_height(None) by {
        assert(start[l2]@[k2]@.with_height(None) == views[l2][k2].with_height(None));
        if !(l2 == ol && k2 == ok) {
            assert(mid[l2]@[k2] == start[l2]@[k2]);
        }
        if !(l2 == l && k2 == k) {
            assert(end[l2]@[k2] == mid[l2]@[k2]);
        }
    }
    assert(stack_agrees(stack.take(p), views, after.stack));
}

/// At the end of the stream the lines are the resolved lines.
proof fn lemma_in_step_end(
    lines: Seq<Vec<Match>>,
    stack: Seq<(usize, usize)>,
    views: Seq<Seq<MatchView>>,
)
    requires
        in_step(lines, stack, views, stream_of(views).len() as int),
    ensures
        line_views(lines) == resolved(views),
        heights_countable(lines),
{
    reveal(in_step);
    let stream = stream_of(views);
    let heights = resolved_heights(stream);
    let done = line_views(lines);
    let expected = resolved(views);
    assert forall|l2: int| 0 <= l2 < done.len() implies #[trigger] done[l2] == expected[l2] by {
        assert forall|k2: int| 0 <= k2 < done[l2].len() implies #[trigger] done[l2][k2]
            == expected[l2][k2] by {
            lemma_stream_index(views, l2, k2);
            let m = lines[l2]@[k2];
            assert(m@.with_height(None) == views[l2][k2].with_height(None));
            assert(height_view(m.stack_height) == heights[offset(views, l2) + k2]);
        }
        assert(done[l2] =~= expected[l2]);
    }
    assert(done =~= expected);
    assert forall|l: int, k: int|
        0 <= l < lines.len() && 0 <= k < lines[l]@.len()
            && (#[trigger] lines[l]@[k]).stack_height is Some
    implies lines[l]@[k].stack_height->0 < usize::MAX by {
        lemma_stream_index(views, l, k);
    }
}

/// The nearest entry from the top of the stack whose match has the given
/// token.
fn find_opener(lines: &Vec<Vec<Match>>, stack: &Vec<(usize, usize)>, token: &Token) -> (found:
    Option<usize>)
    requires
        places_valid(lines@, stack@),
    ensures
        found is None <==> last_same(entry_tokens(lines@, stack@), token@) < 0,
        found is Some ==> found->0 == last_same(entry_tokens(lines@, stack@), token@),
{
    let ghost tokens = entry_tokens(lines@, stack@);
    let mut q: usize = stack.len();
    proof {
        assert(tokens.take(q as int) == tokens);
    }
    while q > 0
        invariant
            q <= stack@.len(),
            tokens == entry_tokens(lines@, stack@),
            places_valid(lines@, stack@),
            last_same(tokens.take(q as int), token@) == last_same(tokens, token@),
        decreases q,
    {
        let (l, k) = stack[q - 1];
        assert(tokens.take(q as int).last() == lines@[l as int]@[k as int].token@);
        assert(tokens.take(q as int).drop_last() == tokens.take(q - 1));
        if lines[l][k].token.same(token) {
            return Some(q - 1);
        }
        q -= 1;
    }
    None
}

/// Sets the depth of the match at a place.
fn set_height(lines: &mut Vec<Vec<Match>>, l: usize, k: usize, height: Option<usize>)
    requires
        l < old(lines)@.len(),
        k < old(lines)@[l as int]@.len(),
    ensures
        height_set(old(lines)@, final(lines)@, l as int, k as int, height),
{
    lines[l][k].stack_height = height;
}

/// One step of the pass: resolves the match at a place, given that all
/// before it are resolved.
#[verifier::rlimit(50)]
fn resolve_match(
    lines: &mut Vec<Vec<Match>>,
    stack: &mut Vec<(usize, usize)>,
    l: usize,
    k: usize,
    Ghost(views): Ghost<Seq<Seq<MatchView>>>,
)
    requires
        l < views.len(),
        k < views[l as int].len(),
        in_step(old(lines)@, old(stack)@, views, offset(views, l as int) + k),
    ensures
        in_step(final(lines)@, final(stack)@, views, offset(views, l as int) + k + 1),
{
    let ghost stream = stream_of(views);
    let ghost n = offset(views, l as int) + k;
    let ghost start = lines@;
    let ghost open = stack@;
    proof {
        lemma_in_step_facts(start, open, views, n);
        lemma_in_step_match(start, open, views, n, l as int, k as int);
    }
    let m = lines[l][k];
    let mut partner: Option<usize> = None;
    if m.token.is_delimiter() && m.kind == Kind::Closing {
        partner = find_opener(lines, stack, &m.token);
        proof {
            lemma_last_same_bounds(entry_tokens(start, open), m.token@);
        }
    }
    match partner {
        Some(p) => {
            let (ol, ok) = stack[p];
            stack.truncate(p);
            set_height(lines, ol, ok, Some(p));
            let ghost mid = lines@;
            set_height(lines, l, k, Some(p));
            proof {
                assert(stack@ == open.take(p as int));
                lemma_step_paired(start, mid, lines@, open, views, l as int, k as int, p as int);
            }
        },
        None => {
            set_height(lines, l, k, None);
            if m.token.is_delimiter() && m.kind == Kind::Opening {
                stack.push((l, k));
            }
            proof {
                lemma_step_unpaired(start, lines@, open, views, l as int, k as int);
            }
        },
    }
}

/// Gives every match its nesting depth, over all lines as one stream, and
/// takes the depth from every match that has none.
pub fn resolve(lines: &mut Vec<Vec<Match>>)
    ensures
        line_views(final(lines)@) == resolved(line_views(old(lines)@)),
        heights_countable(final(lines)@),
{
    let ghost views = line_views(lines@);
    let mut stack: Vec<(usize, usize)> = Vec::new();
    let mut l: usize = 0;
    proof {
        lemma_offset_zero(views);
        lemma_in_step_start(lines@);
    }
    while l < lines.len()
        invariant
            l <= views.len(),
            lines@.len() == views.len(),
            in_step(lines@, stack@, views, offset(views, l as int)),
        decreases views.len() - l,
    {
        let mut k: usize = 0;
        proof {
            lemma_in_step_facts(lines@, stack@, views, offset(views, l as int));
        }
        while k < lines[l].len()
            invariant
                l < views.len(),
                lines@.len() == views.len(),
                lines@[l as int]@.len() == views[l as int].len(),
                k <= views[l as int].len(),
                in_step(lines@, stack@, views, offset(views, l as int) + k),
            decreases views[l as int].len() - k,
        {
            resolve_match(lines, &mut stack, l, k, Ghost(views));
            proof {
                lemma_in_step_facts(lines@, stack@, views, offset(views, l as int) + k + 1);
            }
            k += 1;
        }
        proof {
            lemma_offset_next(views, l as int);
        }
        l += 1;
    }
    proof {
        lemma_offset_end(views);
        lemma_in_step_end(lines@, stack@, views);
    }
}

} // verus!

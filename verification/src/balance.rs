//! Well-formed delimiter sequences: nesting depth counted from the text
//! alone, and what resolution makes of a sequence in which every delimiter
//! has its partner.

use vstd::prelude::*;
use crate::nesting::{
    last_same, lemma_resolve_shape, resolve_step, resolve_upto, resolved_heights, stack_tokens,
};
use crate::parser::matcher::MatchView;

verus! {

/// Whether a match is an opening delimiter.
pub open spec fn opens(m: MatchView) -> bool {
    m.opens()
}

/// Whether a match is a closing delimiter.
pub open spec fn closes(m: MatchView) -> bool {
    m.closes()
}

/// The nesting depth before the match at position `n`: how many more
/// delimiters open than close among the matches before it.
pub open spec fn depth(stream: Seq<MatchView>, n: int) -> int
    decreases n,
{
    if n <= 0 {
        0
    } else {
        depth(stream, n - 1) + if opens(stream[n - 1]) {
            1int
        } else if closes(stream[n - 1]) {
            -1int
        } else {
            0int
        }
    }
}

/// Whether the delimiter opened at `i` is still open before position `n`:
/// the depth has stayed above the depth at `i` ever since.
pub open spec fn still_open(stream: Seq<MatchView>, i: int, n: int) -> bool {
    forall|k: int| i < k <= n ==> #[trigger] depth(stream, k) > depth(stream, i)
}

/// Whether the closing delimiter at `j` is the one that closes what the
/// opening delimiter at `i` opened: `j` is the first position after `i` at
/// which the depth is back to what it was before `i`.
pub open spec fn corresponds(stream: Seq<MatchView>, i: int, j: int) -> bool {
    &&& 0 <= i < j < stream.len()
    &&& opens(stream[i])
    &&& closes(stream[j])
    &&& depth(stream, j + 1) == depth(stream, i)
    &&& still_open(stream, i, j)
}

/// Whether the delimiters of a stream are well-formed: nothing closes that
/// was not opened, nothing stays open, and what closes is of the same pair
/// as what it closes.
pub open spec fn well_formed(stream: Seq<MatchView>) -> bool {
    &&& forall|n: int| 0 <= n <= stream.len() ==> #[trigger] depth(stream, n) >= 0
    &&& depth(stream, stream.len() as int) == 0
    &&& forall|i: int, j: int| #[trigger]
        corresponds(stream, i, j) ==> stream[i].token == stream[j].token
}

/// What resolution has made of the first `n` matches of a well-formed
/// stream: the stack holds the delimiters that are still open, each at the
/// place of its depth, and every delimiter that is closed, or closes, has the
/// depth of its pair.
spec fn tracks(stream: Seq<MatchView>, n: int) -> bool {
    let r = resolve_upto(stream, n as nat);
    &&& r.stack.len() == depth(stream, n)
    &&& forall|p: int|
        0 <= p < r.stack.len() ==> {
            let at = #[trigger] r.stack[p];
            &&& 0 <= at < n
            &&& opens(stream[at])
            &&& depth(stream, at) == p
            &&& still_open(stream, at, n)
        }
    &&& forall|k: int|
        0 <= k < n && opens(#[trigger] stream[k]) && still_open(stream, k, n) ==> 0 <= depth(
            stream,
            k,
        ) < r.stack.len() && r.stack[depth(stream, k)] == k
    &&& forall|k: int|
        0 <= k < n && opens(#[trigger] stream[k]) && !still_open(stream, k, n) ==> r.heights[k]
            == Some(depth(stream, k) as nat)
    &&& forall|k: int|
        0 <= k < n && closes(#[trigger] stream[k]) ==> r.heights[k] == Some(
            depth(stream, k + 1) as nat,
        )
}

/// A delimiter that is still open one match later was still open before.
proof fn lemma_still_open_earlier(stream: Seq<MatchView>, k: int, n: int)
    requires
        still_open(stream, k, n + 1),
    ensures
        still_open(stream, k, n),
{
}

/// A delimiter that is still open stays open over a match after which the
/// depth is still above its own.
proof fn lemma_still_open_later(stream: Seq<MatchView>, k: int, n: int)
    requires
        still_open(stream, k, n),
        depth(stream, n + 1) > depth(stream, k),
    ensures
        still_open(stream, k, n + 1),
{
}

/// A match that is no delimiter changes nothing.
proof fn lemma_tracks_other(stream: Seq<MatchView>, n: int)
    requires
        well_formed(stream),
        0 <= n < stream.len(),
        tracks(stream, n),
        !opens(stream[n]),
        !closes(stream[n]),
    ensures
        tracks(stream, n + 1),
{
    let before = resolve_upto(stream, n as nat);
    let after = resolve_upto(stream, (n + 1) as nat);
    assert(after == resolve_step(stream, before, n));
    assert(after == before);
    assert(depth(stream, n + 1) == depth(stream, n));
    assert forall|k: int| 0 <= k < n implies (still_open(stream, k, n + 1) <==> still_open(
        stream,
        k,
        n,
    )) by {
        if still_open(stream, k, n) {
            assert(depth(stream, n) > depth(stream, k));
            lemma_still_open_later(stream, k, n);
        }
    }
}

/// An opening delimiter goes on the stack at the place of its depth.
#[verifier::rlimit(50)]
proof fn lemma_tracks_open(stream: Seq<MatchView>, n: int)
    requires
        well_formed(stream),
        0 <= n < stream.len(),
        tracks(stream, n),
        opens(stream[n]),
    ensures
        tracks(stream, n + 1),
{
    let before = resolve_upto(stream, n as nat);
    let after = resolve_upto(stream, (n + 1) as nat);
    assert(after == resolve_step(stream, before, n));
    assert(after.stack == before.stack.push(n));
    assert(depth(stream, n + 1) == depth(stream, n) + 1);
    assert(depth(stream, n) >= 0);
    assert forall|k: int| 0 <= k < n implies (still_open(stream, k, n + 1) <==> still_open(
        stream,
        k,
        n,
    )) by {
        if still_open(stream, k, n) {
            assert(depth(stream, n) > depth(stream, k));
            lemma_still_open_later(stream, k, n);
        }
    }
    assert(still_open(stream, n, n + 1));
    assert forall|p: int| 0 <= p < after.stack.len() implies {
        let at = #[trigger] after.stack[p];
        &&& 0 <= at < n + 1
        &&& opens(stream[at])
        &&& depth(stream, at) == p
        &&& still_open(stream, at, n + 1)
    } by {
        if p < before.stack.len() {
            assert(after.stack[p] == before.stack[p]);
        }
    }
    assert forall|k: int|
        0 <= k < n + 1 && opens(#[trigger] stream[k]) && still_open(
            stream,
            k,
            n + 1,
        ) implies 0 <= depth(stream, k) < after.stack.len() && after.stack[depth(stream, k)]
        == k by {
        if k < n {
            assert(still_open(stream, k, n));
        }
    }
}

/// A closing delimiter pairs with the top of the stack: the delimiter that
/// it closes.
#[verifier::rlimit(50)]
proof fn lemma_tracks_close(stream: Seq<MatchView>, n: int)
    requires
        well_formed(stream),
        0 <= n < stream.len(),
        tracks(stream, n),
        closes(stream[n]),
    ensures
        tracks(stream, n + 1),
{
    let before = resolve_upto(stream, n as nat);
    let after = resolve_upto(stream, (n + 1) as nat);
    assert(after == resolve_step(stream, before, n));
    assert(depth(stream, n + 1) == depth(stream, n) - 1);
    assert(depth(stream, n + 1) >= 0);
    let len = before.stack.len() as int;
    let top = before.stack[len - 1];
    assert(corresponds(stream, top, n));
    let tokens = stack_tokens(stream, before.stack);
    assert(tokens.last() == stream[top].token);
    assert(last_same(tokens, stream[n].token) == len - 1);
    lemma_resolve_shape(stream, n as nat);
    assert(after.stack == before.stack.take(len - 1));
    assert forall|k: int| 0 <= k < n && still_open(stream, k, n + 1) implies still_open(
        stream,
        k,
        n,
    ) by {
        lemma_still_open_earlier(stream, k, n);
    }
    assert forall|p: int| 0 <= p < after.stack.len() implies {
        let at = #[trigger] after.stack[p];
        &&& 0 <= at < n + 1
        &&& opens(stream[at])
        &&& depth(stream, at) == p
        &&& still_open(stream, at, n + 1)
    } by {
        assert(after.stack[p] == before.stack[p]);
        lemma_still_open_later(stream, before.stack[p], n);
    }
    assert forall|k: int|
        0 <= k < n + 1 && opens(#[trigger] stream[k]) && still_open(
            stream,
            k,
            n + 1,
        ) implies 0 <= depth(stream, k) < after.stack.len() && after.stack[depth(stream, k)]
        == k by {
        lemma_still_open_earlier(stream, k, n);
        assert(depth(stream, n + 1) > depth(stream, k));
    }
    assert forall|k: int|
        0 <= k < n + 1 && opens(#[trigger] stream[k]) && !still_open(
            stream,
            k,
            n + 1,
        ) implies after.heights[k] == Some(depth(stream, k) as nat) by {
        if still_open(stream, k, n) {
            // open until now: it is the one that closes here
            assert(before.stack[depth(stream, k)] == k);
            if depth(stream, k) < len - 1 {
                lemma_still_open_later(stream, k, n);
            }
            assert(k == top);
        } else {
            assert(k != top);
        }
    }
    assert forall|k: int| 0 <= k < n + 1 && closes(#[trigger] stream[k]) implies after.heights[k]
        == Some(depth(stream, k + 1) as nat) by {
        if k < n {
            assert(k != top);
        }
    }
}

/// Resolution keeps track of a well-formed stream after every prefix.
proof fn lemma_tracks(stream: Seq<MatchView>, n: int)
    requires
        well_formed(stream),
        0 <= n <= stream.len(),
    ensures
        tracks(stream, n),
    decreases n,
{
    if n > 0 {
        lemma_tracks(stream, n - 1);
        if opens(stream[n - 1]) {
            lemma_tracks_open(stream, n - 1);
        } else if closes(stream[n - 1]) {
            lemma_tracks_close(stream, n - 1);
        } else {
            lemma_tracks_other(stream, n - 1);
        }
    }
}

/// In a well-formed stream every delimiter gets the depth of its pair: an
/// opening delimiter the depth before it, a closing delimiter the depth
/// after it.
pub proof fn lemma_well_formed_heights(stream: Seq<MatchView>, k: int)
    requires
        well_formed(stream),
        0 <= k < stream.len(),
    ensures
        opens(stream[k]) ==> resolved_heights(stream)[k] == Some(depth(stream, k) as nat),
        closes(stream[k]) ==> resolved_heights(stream)[k] == Some(depth(stream, k + 1) as nat),
        depth(stream, k) >= 0,
        depth(stream, k + 1) >= 0,
{
    lemma_tracks(stream, stream.len() as int);
    if opens(stream[k]) && still_open(stream, k, stream.len() as int) {
        assert(depth(stream, stream.len() as int) > depth(stream, k));
    }
}

/// In a well-formed stream the two delimiters of a pair have the same depth,
/// the depth before the opening one, and every delimiter between them lies
/// deeper.
pub proof fn lemma_well_formed_pair(stream: Seq<MatchView>, i: int, j: int)
    requires
        well_formed(stream),
        corresponds(stream, i, j),
    ensures
        depth(stream, i) >= 0,
        resolved_heights(stream)[i] == Some(depth(stream, i) as nat),
        resolved_heights(stream)[j] == Some(depth(stream, i) as nat),
        stream[i].token == stream[j].token,
        forall|k: int|
            i < k < j ==> #[trigger] resolved_heights(stream)[k] != Some(depth(stream, i) as nat),
{
    lemma_well_formed_heights(stream, i);
    lemma_well_formed_heights(stream, j);
    lemma_resolve_shape(stream, stream.len());
    crate::nesting::lemma_resolve_delimiters(stream, stream.len());
    assert forall|k: int| i < k < j implies #[trigger] resolved_heights(stream)[k] != Some(
        depth(stream, i) as nat,
    ) by {
        lemma_well_formed_heights(stream, k);
        assert(depth(stream, k) > depth(stream, i));
        assert(depth(stream, k + 1) > depth(stream, i));
    }
}

/// Looks from `k` on for the delimiter that closes what `i` opened.
proof fn lemma_find_closer(stream: Seq<MatchView>, i: int, k: int) -> (j: int)
    requires
        well_formed(stream),
        0 <= i < k <= stream.len(),
        opens(stream[i]),
        still_open(stream, i, k),
    ensures
        corresponds(stream, i, j),
    decreases stream.len() - k,
{
    assert(depth(stream, i) >= 0);
    if k == stream.len() {
        assert(depth(stream, k) > depth(stream, i));
        assert(false);
        arbitrary()
    } else if depth(stream, k + 1) <= depth(stream, i) {
        assert(depth(stream, k) > depth(stream, i));
        k
    } else {
        lemma_find_closer(stream, i, k + 1)
    }
}

/// Looks from `t` back for the delimiter that opened what `j` closes.
proof fn lemma_find_opener(stream: Seq<MatchView>, j: int, t: int) -> (i: int)
    requires
        well_formed(stream),
        0 <= t < j < stream.len(),
        closes(stream[j]),
        forall|k: int| t < k <= j ==> #[trigger] depth(stream, k) > depth(stream, j + 1),
    ensures
        corresponds(stream, i, j),
    decreases t,
{
    assert(depth(stream, j + 1) >= 0);
    assert(depth(stream, t + 1) > depth(stream, j + 1));
    if depth(stream, t) <= depth(stream, j + 1) {
        t
    } else {
        assert(depth(stream, 0) == 0);
        lemma_find_opener(stream, j, t - 1)
    }
}

/// In a well-formed stream every delimiter has its partner: for an opening
/// delimiter the one that closes it, for a closing delimiter the one that it
/// closes.
pub proof fn lemma_well_formed_complete(stream: Seq<MatchView>, k: int) -> (partner: int)
    requires
        well_formed(stream),
        0 <= k < stream.len(),
        opens(stream[k]) || closes(stream[k]),
    ensures
        opens(stream[k]) ==> corresponds(stream, k, partner),
        closes(stream[k]) ==> corresponds(stream, partner, k),
{
    if opens(stream[k]) {
        assert(depth(stream, k + 1) > depth(stream, k));
        lemma_find_closer(stream, k, k + 1)
    } else {
        assert(depth(stream, k + 1) >= 0);
        assert(depth(stream, k) == depth(stream, k + 1) + 1);
        assert(depth(stream, 0) == 0);
        lemma_find_opener(stream, k, k - 1)
    }
}

} // verus!

//! What resolution pairs: every delimiter with a depth has a partner of its
//! own pair at the same depth, and whatever lies between the two lies
//! deeper.

use vstd::prelude::*;
use crate::nesting::{
    last_same, lemma_last_same_bounds, lemma_resolve_delimiters, lemma_resolve_shape,
    resolve_step, resolve_upto, resolved_heights, stack_tokens, Resolution,
};
use crate::parser::matcher::MatchView;

verus! {

/// Whether a depth is none or lies above `floor`.
pub open spec fn deeper(height: Option<nat>, floor: int) -> bool {
    height is None || height->0 > floor
}

/// The position that resolution pairs each position of the stream with.
pub open spec fn resolved_partners(stream: Seq<MatchView>) -> Seq<Option<int>> {
    resolve_upto(stream, stream.len()).partners
}

/// Whether the positions with a depth are paired as they should be: each
/// with one other position that has the same depth and the same token, the
/// earlier of the two opening and the later closing.
spec fn pairs_sound(stream: Seq<MatchView>, r: Resolution, n: int) -> bool {
    &&& r.partners.len() == stream.len()
    &&& forall|i: int|
        0 <= i < stream.len() ==> ((#[trigger] r.heights[i]) is Some <==> r.partners[i] is Some)
    &&& forall|i: int|
        0 <= i < stream.len() && (#[trigger] r.partners[i]) is Some ==> {
            let j = r.partners[i]->0;
            &&& 0 <= j < n
            &&& i < n
            &&& j != i
            &&& r.partners[j] == Some(i)
            &&& r.heights[j] == r.heights[i]
            &&& stream[j].token == stream[i].token
            &&& i < j ==> stream[i].opens() && stream[j].closes()
        }
}

/// Whether everything between the two positions of a pair lies deeper than
/// the pair.
spec fn pairs_enclose(stream: Seq<MatchView>, r: Resolution) -> bool {
    forall|i: int, k: int|
        0 <= i < k < stream.len() && r.partners[i] is Some && k < r.partners[i]->0 ==> deeper(
            #[trigger] r.heights[k],
            (#[trigger] r.heights[i])->0 as int,
        )
}

/// Whether everything after an open delimiter lies deeper than its place on
/// the stack.
spec fn stack_encloses(stream: Seq<MatchView>, r: Resolution, n: int) -> bool {
    forall|p: int, k: int|
        0 <= p < r.stack.len() && r.stack[p] < k < n ==> deeper(
            #[trigger] r.heights[k],
            #[trigger] rank(p),
        )
}

/// A place on the stack as the depth that it stands for.
spec fn rank(p: int) -> int {
    p
}

/// Whether nothing on the stack stands between the two positions of a pair.
spec fn stack_outside(stream: Seq<MatchView>, r: Resolution) -> bool {
    forall|p: int, i: int|
        0 <= p < r.stack.len() && 0 <= i < stream.len() && (#[trigger] r.partners[i]) is Some ==> !(i
            < (#[trigger] r.stack[p]) < r.partners[i]->0)
}

/// What holds of the resolution of the first `n` matches of any stream.
spec fn paired(stream: Seq<MatchView>, n: int) -> bool {
    let r = resolve_upto(stream, n as nat);
    &&& pairs_sound(stream, r, n)
    &&& pairs_enclose(stream, r)
    &&& stack_encloses(stream, r, n)
    &&& stack_outside(stream, r)
}

/// An opening delimiter keeps the pairs as they are.
proof fn lemma_paired_open(stream: Seq<MatchView>, n: int)
    requires
        0 <= n < stream.len(),
        paired(stream, n),
        stream[n].opens(),
    ensures
        paired(stream, n + 1),
{
    let before = resolve_upto(stream, n as nat);
    let after = resolve_upto(stream, (n + 1) as nat);
    assert(after == resolve_step(stream, before, n));
    lemma_resolve_shape(stream, n as nat);
    assert forall|p: int, k: int| 0 <= p < after.stack.len() && after.stack[p] < k < n + 1 implies deeper(
        #[trigger] after.heights[k],
        #[trigger] rank(p),
    ) by {
        if p < before.stack.len() {
            assert(after.stack[p] == before.stack[p]);
            if k < n {
                assert(deeper(before.heights[k], rank(p)));
            }
        }
    }
    assert forall|p: int, i: int|
        0 <= p < after.stack.len() && 0 <= i < stream.len() && (#[trigger] after.partners[i]) is Some implies !(i
        < (#[trigger] after.stack[p]) < after.partners[i]->0) by {
        if p < before.stack.len() {
            assert(after.stack[p] == before.stack[p]);
        }
    }
}

/// A match that pairs with nothing keeps the pairs as they are.
proof fn lemma_paired_other(stream: Seq<MatchView>, n: int)
    requires
        0 <= n < stream.len(),
        paired(stream, n),
        !stream[n].opens(),
        resolve_upto(stream, (n + 1) as nat) == resolve_upto(stream, n as nat),
    ensures
        paired(stream, n + 1),
{
    let before = resolve_upto(stream, n as nat);
    lemma_resolve_shape(stream, n as nat);
    assert forall|p: int, k: int| 0 <= p < before.stack.len() && before.stack[p] < k < n + 1 implies deeper(
        #[trigger] before.heights[k],
        #[trigger] rank(p),
    ) by {
        if k < n {
            assert(deeper(before.heights[k], rank(p)));
        }
    }
}

/// A closing delimiter that finds its partner adds one sound pair.
#[verifier::rlimit(50)]
proof fn lemma_paired_close(stream: Seq<MatchView>, n: int, p: int)
    requires
        0 <= n < stream.len(),
        paired(stream, n),
        stream[n].closes(),
        p == last_same(
            stack_tokens(stream, resolve_upto(stream, n as nat).stack),
            stream[n].token,
        ),
        p >= 0,
    ensures
        paired(stream, n + 1),
{
    let before = resolve_upto(stream, n as nat);
    let after = resolve_upto(stream, (n + 1) as nat);
    assert(after == resolve_step(stream, before, n));
    lemma_resolve_shape(stream, n as nat);
    lemma_resolve_delimiters(stream, n as nat);
    lemma_last_same_bounds(stack_tokens(stream, before.stack), stream[n].token);
    let o = before.stack[p];
    assert(stack_tokens(stream, before.stack)[p] == stream[o].token);
    assert(0 <= o < n);
    assert(before.heights[o] is None);
    assert(before.heights[n] is None);
    assert(before.partners[o] is None);
    assert(before.partners[n] is None);
    assert(after.stack == before.stack.take(p));
    // the pairs are sound
    assert forall|i: int| 0 <= i < stream.len() && (#[trigger] after.partners[i]) is Some implies {
        let j = after.partners[i]->0;
        &&& 0 <= j < n + 1
        &&& i < n + 1
        &&& j != i
        &&& after.partners[j] == Some(i)
        &&& after.heights[j] == after.heights[i]
        &&& stream[j].token == stream[i].token
        &&& i < j ==> stream[i].opens() && stream[j].closes()
    } by {
        if i != o && i != n {
            assert(before.partners[i] is Some);
            let j = before.partners[i]->0;
            assert(before.partners[j] == Some(i));
            assert(j != o && j != n);
        }
    }
    // what lies inside a pair lies deeper
    assert forall|i: int, k: int|
        0 <= i < k < stream.len() && after.partners[i] is Some && k
            < after.partners[i]->0 implies deeper(
        #[trigger] after.heights[k],
        (#[trigger] after.heights[i])->0 as int,
    ) by {
        if i == o {
            assert(deeper(before.heights[k], rank(p)));
        } else if i == n {
        } else {
            assert(before.partners[i] is Some);
            assert(deeper(before.heights[k], before.heights[i]->0 as int));
            if k == o {
                assert(!(i < before.stack[p] < before.partners[i]->0));
            }
        }
    }
    // what lies above an open delimiter lies deeper
    assert forall|q: int, k: int| 0 <= q < after.stack.len() && after.stack[q] < k < n + 1 implies deeper(
        #[trigger] after.heights[k],
        #[trigger] rank(q),
    ) by {
        assert(after.stack[q] == before.stack[q]);
        if k != n && k != o {
            assert(deeper(before.heights[k], rank(q)));
        }
    }
    // nothing still open stands inside a pair
    assert forall|q: int, i: int|
        0 <= q < after.stack.len() && 0 <= i < stream.len() && (#[trigger] after.partners[i]) is Some implies !(i
        < (#[trigger] after.stack[q]) < after.partners[i]->0) by {
        assert(after.stack[q] == before.stack[q]);
        assert(before.stack[q] < before.stack[p]);
        if i != o && i != n {
            assert(before.partners[i] is Some);
        }
    }
}

/// The pairs are sound after every prefix of the stream.
proof fn lemma_paired(stream: Seq<MatchView>, n: int)
    requires
        0 <= n <= stream.len(),
    ensures
        paired(stream, n),
    decreases n,
{
    if n > 0 {
        lemma_paired(stream, n - 1);
        let before = resolve_upto(stream, (n - 1) as nat);
        let m = stream[n - 1];
        if m.opens() {
            lemma_paired_open(stream, n - 1);
        } else if m.closes() {
            let p = last_same(stack_tokens(stream, before.stack), m.token);
            if p >= 0 {
                lemma_paired_close(stream, n - 1, p);
            } else {
                lemma_paired_other(stream, n - 1);
            }
        } else {
            lemma_paired_other(stream, n - 1);
        }
    }
}

/// Every position with a depth is paired with one other position: the two
/// have the same depth and the same token, the earlier opens and the later
/// closes, and whatever lies between them has no depth or a greater one.
pub proof fn lemma_depths_come_in_pairs(stream: Seq<MatchView>, i: int)
    requires
        0 <= i < stream.len(),
        resolved_heights(stream)[i] is Some,
    ensures
        resolved_partners(stream).len() == stream.len(),
        resolved_heights(stream).len() == stream.len(),
        resolved_partners(stream)[i] is Some,
        ({
            let j = resolved_partners(stream)[i]->0;
            let height = resolved_heights(stream)[i];
            &&& 0 <= j < stream.len()
            &&& j != i
            &&& resolved_partners(stream)[j] == Some(i)
            &&& resolved_heights(stream)[j] == height
            &&& stream[j].token == stream[i].token
            &&& i < j ==> stream[i].opens() && stream[j].closes()
            &&& j < i ==> stream[j].opens() && stream[i].closes()
            &&& forall|k: int|
                (i < k < j || j < k < i) ==> deeper(
                    #[trigger] resolved_heights(stream)[k],
                    height->0 as int,
                )
        }),
{
    lemma_paired(stream, stream.len() as int);
    lemma_resolve_shape(stream, stream.len());
    let r = resolve_upto(stream, stream.len());
    let j = r.partners[i]->0;
    assert(r.partners[j] == Some(i));
    assert forall|k: int| (i < k < j || j < k < i) implies deeper(
        #[trigger] r.heights[k],
        r.heights[i]->0 as int,
    ) by {
        if i < k < j {
            assert(deeper(r.heights[k], r.heights[i]->0 as int));
        } else {
            assert(deeper(r.heights[k], r.heights[j]->0 as int));
        }
    }
}

} // verus!

//! The token stream with lookahead that the matcher reads from.

use vstd::prelude::*;
use itertools::MultiPeek;
use std::vec::IntoIter;
use super::tokenize::CharPos;

verus! {

#[verifier::external_type_specification]
#[verifier::external_body]
#[verifier::reject_recursive_types(I)]
pub struct ExMultiPeek<I: Iterator>(MultiPeek<I>);

/// A stream of tokens that can be read ahead of before they are taken.
pub type Tokens = MultiPeek<IntoIter<CharPos>>;

/// The tokens that the stream has yet to hand out, the next one first.
pub uninterp spec fn pending(tokens: Tokens) -> Seq<CharPos>;

/// How many of the pending tokens the peeking cursor has passed.
pub uninterp spec fn peeked(tokens: Tokens) -> nat;

/// `itertools::multipeek` on the tokens of a vector: the stream hands out the
/// vector's items in order, and its peeking cursor starts at the front.
#[verifier::external_body]
pub(crate) fn multipeek(tokens: Vec<CharPos>) -> (stream: Tokens)
    ensures
        pending(stream) == tokens@,
        peeked(stream) == 0,
{
    itertools::multipeek(tokens)
}

/// `MultiPeek::next`: takes the first pending token, if there is one, and
/// puts the peeking cursor back to the front.
#[verifier::external_body]
pub(crate) fn next_token(tokens: &mut Tokens) -> (token: Option<CharPos>)
    ensures
        peeked(*final(tokens)) == 0,
        pending(*old(tokens)).len() == 0 ==> token is None && pending(*final(tokens)) == pending(
            *old(tokens),
        ),
        pending(*old(tokens)).len() > 0 ==> token == Some(pending(*old(tokens))[0]) && pending(
            *final(tokens),
        ) == pending(*old(tokens)).drop_first(),
{
    tokens.next()
}

/// `MultiPeek::peek`: shows the pending token under the peeking cursor and
/// moves the cursor one on; past the last pending token it shows nothing and
/// the cursor stays. No token is taken.
#[verifier::external_body]
pub(crate) fn peek_token(tokens: &mut Tokens) -> (token: Option<CharPos>)
    ensures
        pending(*final(tokens)) == pending(*old(tokens)),
        peeked(*old(tokens)) < pending(*old(tokens)).len() ==> token == Some(
            pending(*old(tokens))[peeked(*old(tokens)) as int],
        ) && peeked(*final(tokens)) == peeked(*old(tokens)) + 1,
        peeked(*old(tokens)) >= pending(*old(tokens)).len() ==> token is None && peeked(
            *final(tokens),
        ) == peeked(*old(tokens)),
{
    tokens.peek().copied()
}

/// `MultiPeek::reset_peek`: puts the peeking cursor back to the front.
#[verifier::external_body]
pub(crate) fn reset_peek(tokens: &mut Tokens)
    ensures
        pending(*final(tokens)) == pending(*old(tokens)),
        peeked(*final(tokens)) == 0,
{
    tokens.reset_peek()
}

} // verus!

//! The tokenizer: the bytes of a text that can matter to a matcher, each with
//! its column.

use vstd::prelude::*;
use super::text::{BACKSLASH, NEWLINE};

verus! {

/// A byte of the text and its column within its line.
pub type CharPos = (u8, usize);

/// Whether the tokenizer hands a byte on: newlines, backslashes and the bytes
/// that the matcher asked for.
pub open spec fn is_token_byte(b: u8, interest: Seq<u8>) -> bool {
    b == NEWLINE || b == BACKSLASH || interest.contains(b)
}

/// The column of the byte at index `i`: its distance from the start of its
/// line.
pub open spec fn column_at(text: Seq<u8>, i: int) -> nat
    decreases i,
{
    if i <= 0 || i > text.len() || text[i - 1] == NEWLINE {
        0
    } else {
        column_at(text, i - 1) + 1
    }
}

/// The tokens of a text: every byte that is a token byte, in order, with its
/// column.
pub open spec fn tokens_of(text: Seq<u8>, interest: Seq<u8>) -> Seq<CharPos>
    decreases text.len(),
{
    if text.len() == 0 {
        Seq::empty()
    } else {
        let before = tokens_of(text.drop_last(), interest);
        if is_token_byte(text.last(), interest) {
            before.push((text.last(), column_at(text, text.len() - 1) as usize))
        } else {
            before
        }
    }
}

/// A column is no greater than the index it belongs to.
pub proof fn lemma_column_bound(text: Seq<u8>, i: int)
    ensures
        column_at(text, i) <= i || i < 0,
    decreases i,
{
    if !(i <= 0 || i > text.len() || text[i - 1] == NEWLINE) {
        lemma_column_bound(text, i - 1);
    }
}

/// The column of a byte depends only on the text before it.
pub proof fn lemma_column_prefix(text: Seq<u8>, n: int, i: int)
    requires
        0 <= i <= n <= text.len(),
    ensures
        column_at(text.take(n), i) == column_at(text, i),
    decreases i,
{
    if i > 0 {
        assert(text.take(n)[i - 1] == text[i - 1]);
        if text[i - 1] != NEWLINE {
            lemma_column_prefix(text, n, i - 1);
        }
    }
}

/// For each byte value, whether the tokenizer hands it on.
fn interest_table(interest: &[u8]) -> (table: Vec<bool>)
    ensures
        table@.len() == 256,
        forall|b: u8| #[trigger] table@[b as int] == is_token_byte(b, interest@),
{
    let mut table: Vec<bool> = Vec::new();
    let mut b: usize = 0;
    while b < 256
        invariant
            b <= 256,
            table@.len() == b,
            forall|c: u8| c < b ==> #[trigger] table@[c as int] == (c == NEWLINE || c == BACKSLASH),
        decreases 256 - b,
    {
        table.push(b == 10 || b == 92);
        b += 1;
    }
    let mut i: usize = 0;
    while i < interest.len()
        invariant
            i <= interest.len(),
            table@.len() == 256,
            forall|c: u8| #[trigger]
                table@[c as int] == is_token_byte(c, interest@.take(i as int)),
        decreases interest.len() - i,
    {
        let wanted = interest[i];
        proof {
            let before = interest@.take(i as int);
            let after = interest@.take(i + 1);
            assert(after == before.push(wanted));
            assert forall|c: u8| is_token_byte(c, after) == (is_token_byte(c, before) || c
                == wanted) by {
                if before.contains(c) {
                    let k = choose|k: int| 0 <= k < before.len() && before[k] == c;
                    assert(after[k] == c);
                }
                if c == wanted {
                    assert(after[i as int] == c);
                }
            }
        }
        table.set(wanted as usize, true);
        i += 1;
    }
    proof {
        assert(interest@.take(i as int) == interest@);
    }
    table
}

/// Scans `text` from left to right and returns its tokens: the newlines, the
/// backslashes and the bytes listed in `interest`, each with its column.
/// Nothing is returned for any other byte.
pub fn tokenize(text: &[u8], interest: &[u8]) -> (tokens: Vec<CharPos>)
    ensures
        tokens@ == tokens_of(text@, interest@),
{
    let table = interest_table(interest);
    let mut tokens: Vec<CharPos> = Vec::new();
    let mut col: usize = 0;
    let mut i: usize = 0;
    proof {
        assert(text@.take(0) == Seq::<u8>::empty());
    }
    while i < text.len()
        invariant
            i <= text.len(),
            table@.len() == 256,
            forall|b: u8| #[trigger] table@[b as int] == is_token_byte(b, interest@),
            col == column_at(text@, i as int),
            tokens@ == tokens_of(text@.take(i as int), interest@),
        decreases text.len() - i,
    {
        let b = text[i];
        proof {
            let prefix = text@.take(i + 1);
            assert(prefix.drop_last() == text@.take(i as int));
            assert(prefix.last() == b);
            lemma_column_prefix(text@, i + 1, i as int);
            lemma_column_bound(text@, i as int);
        }
        if table[b as usize] {
            tokens.push((b, col));
        }
        if b == NEWLINE {
            col = 0;
        } else {
            col += 1;
        }
        i += 1;
    }
    proof {
        assert(text@.take(i as int) == text@);
    }
    tokens
}

} // verus!

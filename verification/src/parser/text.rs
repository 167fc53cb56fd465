//! Byte-level views of text: lines, columns and comparison of byte strings.

use vstd::prelude::*;
use vstd::string::*;

verus! {

pub const NEWLINE: u8 = 10;

pub const BACKSLASH: u8 = 92;

pub const SPACE: u8 = 32;

pub const TAB: u8 = 9;

/// The lines of a text: the runs of bytes between newline bytes. A text with
/// `k` newlines has `k + 1` lines, the last one possibly empty.
pub open spec fn split_lines(text: Seq<u8>) -> Seq<Seq<u8>>
    decreases text.len(),
{
    if text.len() == 0 {
        seq![Seq::empty()]
    } else {
        let before = split_lines(text.drop_last());
        if text.last() == NEWLINE {
            before.push(Seq::empty())
        } else {
            before.update(before.len() - 1, before.last().push(text.last()))
        }
    }
}

/// The number of newline bytes in a text.
pub open spec fn count_newlines(text: Seq<u8>) -> nat
    decreases text.len(),
{
    if text.len() == 0 {
        0
    } else {
        count_newlines(text.drop_last()) + if text.last() == NEWLINE {
            1nat
        } else {
            0nat
        }
    }
}

/// A text has one line more than it has newlines.
pub proof fn lemma_split_lines_len(text: Seq<u8>)
    ensures
        split_lines(text).len() == count_newlines(text) + 1,
    decreases text.len(),
{
    if text.len() > 0 {
        lemma_split_lines_len(text.drop_last());
    }
}

/// Splitting after one more byte either opens a new line or extends the last.
pub proof fn lemma_split_lines_push(text: Seq<u8>, b: u8)
    ensures
        split_lines(text).len() >= 1,
        b == NEWLINE ==> split_lines(text.push(b)) == split_lines(text).push(Seq::empty()),
        b != NEWLINE ==> split_lines(text.push(b)) == split_lines(text).update(
            split_lines(text).len() - 1,
            split_lines(text).last().push(b),
        ),
{
    lemma_split_lines_len(text);
    assert(text.push(b).drop_last() == text);
}

/// Whether two byte slices hold the same bytes.
pub fn bytes_eq(a: &[u8], b: &[u8]) -> (r: bool)
    ensures
        r == (a@ == b@),
{
    if a.len() != b.len() {
        return false;
    }
    let mut i: usize = 0;
    while i < a.len()
        invariant
            a.len() == b.len(),
            i <= a.len(),
            a@.take(i as int) == b@.take(i as int),
        decreases a.len() - i,
    {
        if a[i] != b[i] {
            return false;
        }
        assert(a@.take(i + 1) == a@.take(i as int).push(a@[i as int]));
        assert(b@.take(i + 1) == b@.take(i as int).push(b@[i as int]));
        i += 1;
    }
    assert(a@.take(i as int) == a@);
    assert(b@.take(i as int) == b@);
    true
}

/// Whether two strings hold the same bytes.
pub fn str_eq(a: &str, b: &str) -> (r: bool)
    ensures
        r == (a.spec_bytes() == b.spec_bytes()),
{
    bytes_eq(a.as_bytes(), b.as_bytes())
}

/// The bytes of each of the given strings.
pub open spec fn line_bytes(lines: Seq<&str>) -> Seq<Seq<u8>> {
    lines.map_values(|line: &str| line.spec_bytes())
}

/// The text made of the given lines with a newline between each two.
pub open spec fn joined(lines: Seq<Seq<u8>>) -> Seq<u8>
    decreases lines.len(),
{
    if lines.len() == 0 {
        Seq::empty()
    } else if lines.len() == 1 {
        lines[0]
    } else {
        joined(lines.drop_last()) + seq![NEWLINE] + lines.last()
    }
}

/// Joins the lines into one text, with a newline between each two.
pub fn join_lines(lines: &[&str]) -> (text: Vec<u8>)
    ensures
        text@ == joined(line_bytes(lines@)),
{
    let mut text: Vec<u8> = Vec::new();
    let mut i: usize = 0;
    proof {
        assert(line_bytes(lines@).take(0) == Seq::<Seq<u8>>::empty());
    }
    while i < lines.len()
        invariant
            i <= lines.len(),
            text@ == joined(line_bytes(lines@).take(i as int)),
        decreases lines.len() - i,
    {
        proof {
            let after = line_bytes(lines@).take(i + 1);
            assert(after.drop_last() == line_bytes(lines@).take(i as int));
            assert(after.last() == lines@[i as int].spec_bytes());
            if i == 0 {
                assert(Seq::<u8>::empty() + lines@[0].spec_bytes() == lines@[0].spec_bytes());
            }
        }
        if i > 0 {
            text.push(NEWLINE);
        }
        text.extend_from_slice(lines[i].as_bytes());
        i += 1;
    }
    proof {
        assert(line_bytes(lines@).take(i as int) == line_bytes(lines@));
    }
    text
}

} // verus!

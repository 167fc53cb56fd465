//! Indentation width of each line of a text.

use vstd::prelude::*;
use vstd::string::*;
use super::text::{split_lines, lemma_split_lines_push, NEWLINE, SPACE, TAB};

verus! {

/// Whether a byte counts as indentation.
pub open spec fn is_indent_byte(b: u8) -> bool {
    b == SPACE || b == TAB
}

/// The width that one indentation byte adds: one for a space, the tab width
/// for a tab.
pub open spec fn byte_width(b: u8, tab_width: u8) -> nat {
    if b == SPACE {
        1
    } else if b == TAB {
        tab_width as nat
    } else {
        0
    }
}

/// The summed width of the run of spaces and tabs that a line starts with.
pub open spec fn leading_width(line: Seq<u8>, tab_width: u8) -> nat
    decreases line.len(),
{
    if line.len() == 0 || !is_indent_byte(line[0]) {
        0
    } else {
        byte_width(line[0], tab_width) + leading_width(line.drop_first(), tab_width)
    }
}

/// A width as it is stored: capped at the largest `u8`.
pub open spec fn saturate(width: int) -> u8 {
    if width > u8::MAX {
        u8::MAX
    } else {
        width as u8
    }
}

/// The stored indentation of one line.
pub open spec fn line_indent(line: Seq<u8>, tab_width: u8) -> u8 {
    saturate(leading_width(line, tab_width) as int)
}

/// The indentation of every line of a text, in order.
pub open spec fn indent_levels_spec(text: Seq<u8>, tab_width: u8) -> Seq<u8> {
    split_lines(text).map_values(|line: Seq<u8>| line_indent(line, tab_width))
}

/// Whether a line holds nothing but spaces and tabs.
pub open spec fn all_indent(line: Seq<u8>) -> bool {
    forall|i: int| 0 <= i < line.len() ==> is_indent_byte(#[trigger] line[i])
}

/// One more byte adds to the width of a line only while the line is all
/// indentation.
proof fn lemma_leading_width_push(line: Seq<u8>, b: u8, tab_width: u8)
    ensures
        leading_width(line.push(b), tab_width) == if all_indent(line) && is_indent_byte(b) {
            leading_width(line, tab_width) + byte_width(b, tab_width)
        } else {
            leading_width(line, tab_width)
        },
    decreases line.len(),
{
    let pushed = line.push(b);
    if line.len() == 0 {
        assert(pushed.drop_first() == Seq::<u8>::empty());
        assert(pushed[0] == b);
        assert(leading_width(pushed.drop_first(), tab_width) == 0);
        assert(leading_width(line, tab_width) == 0);
    } else {
        let rest = line.drop_first();
        assert(pushed.drop_first() == rest.push(b));
        assert(pushed[0] == line[0]);
        if is_indent_byte(line[0]) {
            lemma_leading_width_push(rest, b, tab_width);
            if all_indent(line) {
                assert forall|i: int| 0 <= i < rest.len() implies is_indent_byte(
                    #[trigger] rest[i],
                ) by {
                    assert(rest[i] == line[i + 1]);
                }
                assert(all_indent(rest));
            } else {
                let i = choose|i: int| 0 <= i < line.len() && !is_indent_byte(#[trigger] line[i]);
                assert(rest[i - 1] == line[i]);
                assert(!all_indent(rest));
            }
        } else {
            assert(!all_indent(line));
        }
    }
}

/// The scan's state after a prefix of the text: the levels of the lines that
/// have ended, the width gathered on the line in progress, and whether that
/// line is still inside its indentation.
spec fn scanned(text: Seq<u8>, tab_width: u8, levels: Seq<u8>, current: u8, in_indent: bool) -> bool {
    let lines = split_lines(text);
    &&& lines.len() >= 1
    &&& levels == lines.drop_last().map_values(|line: Seq<u8>| line_indent(line, tab_width))
    &&& current == line_indent(lines.last(), tab_width)
    &&& in_indent == all_indent(lines.last())
}

/// The scan after one more byte of the text.
proof fn lemma_scanned_step(
    text: Seq<u8>,
    b: u8,
    tab_width: u8,
    levels: Seq<u8>,
    current: u8,
    in_indent: bool,
)
    requires
        scanned(text, tab_width, levels, current, in_indent),
    ensures
        b == NEWLINE ==> scanned(text.push(b), tab_width, levels.push(current), 0, true),
        b != NEWLINE && in_indent && is_indent_byte(b) ==> scanned(
            text.push(b),
            tab_width,
            levels,
            saturate(current + byte_width(b, tab_width)),
            true,
        ),
        b != NEWLINE && !(in_indent && is_indent_byte(b)) ==> scanned(
            text.push(b),
            tab_width,
            levels,
            current,
            false,
        ),
{
    let f = |line: Seq<u8>| line_indent(line, tab_width);
    let lines = split_lines(text);
    let after = split_lines(text.push(b));
    lemma_split_lines_push(text, b);
    if b == NEWLINE {
        assert(after.drop_last() == lines);
        assert(lines == lines.drop_last().push(lines.last()));
        assert(lines.map_values(f) == lines.drop_last().map_values(f).push(f(lines.last())));
        assert(all_indent(Seq::<u8>::empty()));
    } else {
        assert(after.drop_last() == lines.drop_last());
        assert(after.last() == lines.last().push(b));
        lemma_leading_width_push(lines.last(), b, tab_width);
        if in_indent && is_indent_byte(b) {
            assert(all_indent(lines.last().push(b)));
        } else {
            if !in_indent {
                let i = choose|i: int|
                    0 <= i < lines.last().len() && !is_indent_byte(#[trigger] lines.last()[i]);
                assert(lines.last().push(b)[i] == lines.last()[i]);
            } else {
                assert(lines.last().push(b)[lines.last().len() as int] == b);
            }
            assert(!all_indent(lines.last().push(b)));
        }
    }
}

/// Several bytes without a newline leave the scan where it was, once the line
/// in progress has left its indentation.
proof fn lemma_scanned_skip(
    text: Seq<u8>,
    from: int,
    to: int,
    tab_width: u8,
    levels: Seq<u8>,
    current: u8,
)
    requires
        0 <= from <= to <= text.len(),
        scanned(text.take(from), tab_width, levels, current, false),
        forall|k: int| from <= k < to ==> text[k] != NEWLINE,
    ensures
        scanned(text.take(to), tab_width, levels, current, false),
    decreases to - from,
{
    if from < to {
        lemma_scanned_skip(text, from, to - 1, tab_width, levels, current);
        lemma_scanned_step(text.take(to - 1), text[to - 1], tab_width, levels, current, false);
        assert(text.take(to - 1).push(text[to - 1]) == text.take(to));
    }
}

/// Whether `src[from..to]` holds a newline.
fn has_newline(src: &[u8], from: usize, to: usize) -> (r: bool)
    requires
        from <= to <= src.len(),
    ensures
        r == exists|k: int| from <= k < to && src@[k] == NEWLINE,
{
    let mut i: usize = from;
    while i < to
        invariant
            from <= i <= to <= src.len(),
            forall|k: int| from <= k < i ==> src@[k] != NEWLINE,
        decreases to - i,
    {
        if src[i] == NEWLINE {
            return true;
        }
        i += 1;
    }
    false
}

/// Indentation of each line of `src`, scanned in blocks of `N` bytes.
///
/// A block is skipped whole when the line in progress has already left its
/// indentation and the block holds no newline.
pub fn indent_levels_of<const N: usize>(src: &[u8], tab_width: u8) -> (levels: Vec<u8>)
    ensures
        levels@ == indent_levels_spec(src@, tab_width),
{
    let mut in_indentation = true;
    let mut indentation: Vec<u8> = Vec::new();
    let mut current_indentation: u8 = 0;
    let mut i: usize = 0;
    proof {
        assert(src@.take(0) == Seq::<u8>::empty());
        assert(split_lines(Seq::<u8>::empty()).drop_last() == Seq::<Seq<u8>>::empty());
        assert(all_indent(Seq::<u8>::empty()));
        assert(indentation@ == Seq::<Seq<u8>>::empty().map_values(
            |line: Seq<u8>| line_indent(line, tab_width),
        ));
    }
    while i < src.len()
        invariant
            i <= src.len(),
            scanned(src@.take(i as int), tab_width, indentation@, current_indentation, in_indentation),
        decreases src.len() - i,
    {
        if N > 1 && N <= src.len() - i && !in_indentation && !has_newline(src, i, i + N) {
            proof {
                lemma_scanned_skip(
                    src@,
                    i as int,
                    i + N,
                    tab_width,
                    indentation@,
                    current_indentation,
                );
            }
            i += N;
            continue ;
        }
        let c = src[i];
        proof {
            lemma_scanned_step(
                src@.take(i as int),
                c,
                tab_width,
                indentation@,
                current_indentation,
                in_indentation,
            );
            assert(src@.take(i as int).push(c) == src@.take(i + 1));
        }
        if c == NEWLINE {
            in_indentation = true;
            indentation.push(current_indentation);
            current_indentation = 0;
        } else if in_indentation {
            if c == SPACE {
                current_indentation = current_indentation.saturating_add(1);
            } else if c == TAB {
                current_indentation = current_indentation.saturating_add(tab_width);
            } else {
                in_indentation = false;
            }
        }
        i += 1;
    }
    indentation.push(current_indentation);
    proof {
        let f = |line: Seq<u8>| line_indent(line, tab_width);
        let lines = split_lines(src@);
        assert(src@.take(src.len() as int) == src@);
        assert(lines == lines.drop_last().push(lines.last()));
        assert(lines.map_values(f) == lines.drop_last().map_values(f).push(f(lines.last())));
    }
    indentation
}

/// Indentation of each line of `src`: a space counts one, a tab counts
/// `tab_width`, and a line's sum is capped at `u8::MAX`. Counting stops at the
/// first byte of the line that is neither.
pub fn indent_levels<const N: usize>(src: &str, tab_width: u8) -> (levels: Vec<u8>)
    ensures
        levels@ == indent_levels_spec(src.spec_bytes(), tab_width),
{
    indent_levels_of::<N>(src.as_bytes(), tab_width)
}

} // verus!

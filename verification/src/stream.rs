//! Lines of items read as one stream, and positions in it.

use vstd::prelude::*;

verus! {

/// The items of all lines in document order.
pub open spec fn stream_of<T>(lines: Seq<Seq<T>>) -> Seq<T>
    decreases lines.len(),
{
    if lines.len() == 0 {
        Seq::empty()
    } else {
        stream_of(lines.drop_last()) + lines.last()
    }
}

/// The position in the stream of the first item of line `line`: the number
/// of items on the lines before it.
pub open spec fn offset<T>(lines: Seq<Seq<T>>, line: int) -> int {
    stream_of(lines.take(line)).len() as int
}

/// The first line starts at the start of the stream.
pub proof fn lemma_offset_zero<T>(lines: Seq<Seq<T>>)
    ensures
        offset(lines, 0) == 0,
{
    assert(lines.take(0) == Seq::<Seq<T>>::empty());
}

/// The stream ends where a line after the last would start.
pub proof fn lemma_offset_end<T>(lines: Seq<Seq<T>>)
    ensures
        offset(lines, lines.len() as int) == stream_of(lines).len(),
{
    assert(lines.take(lines.len() as int) == lines);
}

/// A line starts where the line before it ends.
pub proof fn lemma_offset_next<T>(lines: Seq<Seq<T>>, line: int)
    requires
        0 <= line < lines.len(),
    ensures
        offset(lines, line + 1) == offset(lines, line) + lines[line].len(),
        stream_of(lines.take(line + 1)) == stream_of(lines.take(line)) + lines[line],
{
    assert(lines.take(line + 1).drop_last() == lines.take(line));
    assert(lines.take(line + 1).last() == lines[line]);
}

/// A later line starts no earlier.
pub proof fn lemma_offset_mono<T>(lines: Seq<Seq<T>>, a: int, b: int)
    requires
        0 <= a <= b <= lines.len(),
    ensures
        offset(lines, a) <= offset(lines, b),
    decreases b - a,
{
    if a < b {
        lemma_offset_mono(lines, a, b - 1);
        lemma_offset_next(lines, b - 1);
    }
}

/// The stream up to a line is a prefix of the whole stream.
pub proof fn lemma_stream_prefix<T>(lines: Seq<Seq<T>>, line: int)
    requires
        0 <= line <= lines.len(),
    ensures
        offset(lines, line) <= stream_of(lines).len(),
        stream_of(lines.take(line)) == stream_of(lines).take(offset(lines, line)),
    decreases lines.len() - line,
{
    if line == lines.len() {
        assert(lines.take(line) == lines);
        assert(stream_of(lines).take(stream_of(lines).len() as int) == stream_of(lines));
    } else {
        lemma_stream_prefix(lines, line + 1);
        lemma_offset_next(lines, line);
        let longer = stream_of(lines.take(line + 1));
        assert(longer.take(offset(lines, line)) == stream_of(lines.take(line)));
        assert(stream_of(lines).take(offset(lines, line + 1)).take(offset(lines, line))
            == stream_of(lines).take(offset(lines, line)));
    }
}

/// Where the item `index` of line `line` stands in the stream.
pub proof fn lemma_stream_index<T>(lines: Seq<Seq<T>>, line: int, index: int)
    requires
        0 <= line < lines.len(),
        0 <= index < lines[line].len(),
    ensures
        0 <= offset(lines, line) + index < stream_of(lines).len(),
        stream_of(lines)[offset(lines, line) + index] == lines[line][index],
{
    lemma_stream_prefix(lines, line + 1);
    lemma_offset_next(lines, line);
    let upto = stream_of(lines.take(line + 1));
    assert(upto[offset(lines, line) + index] == lines[line][index]);
    assert(upto == stream_of(lines).take(offset(lines, line + 1)));
}

/// Two places in the lines stand at the same position of the stream only if
/// they are the same place.
pub proof fn lemma_position_unique<T>(lines: Seq<Seq<T>>, l1: int, i1: int, l2: int, i2: int)
    requires
        0 <= l1 < lines.len(),
        0 <= i1 < lines[l1].len(),
        0 <= l2 < lines.len(),
        0 <= i2 < lines[l2].len(),
        offset(lines, l1) + i1 == offset(lines, l2) + i2,
    ensures
        l1 == l2,
        i1 == i2,
{
    if l1 < l2 {
        lemma_offset_next(lines, l1);
        lemma_offset_mono(lines, l1 + 1, l2);
    } else if l2 < l1 {
        lemma_offset_next(lines, l2);
        lemma_offset_mono(lines, l2 + 1, l1);
    }
}

/// Every position of the stream is a place on some line.
pub proof fn lemma_position_exists<T>(lines: Seq<Seq<T>>, position: int) -> (place: (int, int))
    requires
        0 <= position < stream_of(lines).len(),
    ensures
        0 <= place.0 < lines.len(),
        0 <= place.1 < lines[place.0].len(),
        offset(lines, place.0) + place.1 == position,
    decreases lines.len(),
{
    if lines.len() == 0 {
        (0, 0)
    } else {
        let before = lines.drop_last();
        assert(lines.take(lines.len() - 1) == before);
        if position < stream_of(before).len() {
            let place = lemma_position_exists(before, position);
            assert(before.take(place.0) == lines.take(place.0));
            place
        } else {
            (lines.len() - 1, position - stream_of(before).len())
        }
    }
}

/// Whether two runs of lines have the same number of lines and of items on
/// each line.
pub open spec fn same_shape<A, B>(a: Seq<Seq<A>>, b: Seq<Seq<B>>) -> bool {
    &&& a.len() == b.len()
    &&& forall|l: int| 0 <= l < a.len() ==> (#[trigger] a[l]).len() == b[l].len()
}

/// Positions depend on nothing but the lengths of the lines.
pub proof fn lemma_same_shape<A, B>(a: Seq<Seq<A>>, b: Seq<Seq<B>>, line: int)
    requires
        same_shape(a, b),
        0 <= line <= a.len(),
    ensures
        offset(a, line) == offset(b, line),
    decreases line,
{
    if line == 0 {
        lemma_offset_zero(a);
        lemma_offset_zero(b);
    } else {
        lemma_same_shape(a, b, line - 1);
        lemma_offset_next(a, line - 1);
        lemma_offset_next(b, line - 1);
    }
}

} // verus!

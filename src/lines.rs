//! The mathematical model of a text's lines, over the text's UTF-8 bytes.
use vstd::prelude::*;
use vstd::utf8::*;

verus! {

/// The byte that ends a line.
pub const LINE_FEED: u8 = 0x0a;

/// The offsets at which the lines of `text` begin: 0 for the first line, then the
/// offset just past every line feed, in increasing order.
pub open spec fn line_starts(text: Seq<u8>) -> Seq<int>
    decreases text.len(),
{
    if text.len() == 0 {
        seq![0int]
    } else {
        let before = line_starts(text.drop_last());
        if text.last() == LINE_FEED {
            before.push(text.len() as int)
        } else {
            before
        }
    }
}

/// The number of lines of `text`.
pub open spec fn line_count(text: Seq<u8>) -> int {
    line_starts(text).len() as int
}

/// The starts of the lines that begin at or before `offset`.
pub open spec fn starts_up_to(text: Seq<u8>, offset: int) -> Seq<int> {
    line_starts(text.subrange(0, offset))
}

/// The 1-based line on which `offset` lies.
pub open spec fn line_of(text: Seq<u8>, offset: int) -> int {
    starts_up_to(text, offset).len() as int
}

/// The offset at which the line holding `offset` begins.
pub open spec fn line_start_of(text: Seq<u8>, offset: int) -> int {
    starts_up_to(text, offset).last()
}

/// The 1-based column of `offset`, counted in bytes from the start of its line.
pub open spec fn column_of(text: Seq<u8>, offset: int) -> int {
    offset - line_start_of(text, offset) + 1
}

/// The line starts begin with 0, lie within the text, strictly increase, and each
/// one but the first follows a line feed; there is at most one more than there are
/// bytes.
pub proof fn lemma_line_starts_shape(text: Seq<u8>)
    ensures
        1 <= line_starts(text).len() <= text.len() + 1,
        line_starts(text)[0] == 0,
        forall|k: int|
            0 <= k < line_starts(text).len() ==> 0 <= #[trigger] line_starts(text)[k]
                <= text.len(),
        forall|k: int|
            0 < k < line_starts(text).len() ==> text[#[trigger] line_starts(text)[k] - 1]
                == LINE_FEED,
        forall|i: int, j: int|
            0 <= i < j < line_starts(text).len() ==> line_starts(text)[i]
                < line_starts(text)[j],
    decreases text.len(),
{
    if text.len() > 0 {
        let rest = text.drop_last();
        lemma_line_starts_shape(rest);
        assert forall|k: int| 0 < k < line_starts(rest).len() implies text[line_starts(
            rest,
        )[k] - 1] == LINE_FEED by {
            assert(text[line_starts(rest)[k] - 1] == rest[line_starts(rest)[k] - 1]);
        }
    }
}

/// The line starts of a prefix of `text` are the line starts of `text` up to the
/// prefix's end; every later one lies past it.
pub proof fn lemma_starts_of_prefix(text: Seq<u8>, offset: int)
    requires
        0 <= offset <= text.len(),
    ensures
        starts_up_to(text, offset).len() <= line_starts(text).len(),
        starts_up_to(text, offset) == line_starts(text).subrange(
            0,
            starts_up_to(text, offset).len() as int,
        ),
        forall|k: int|
            starts_up_to(text, offset).len() <= k < line_starts(text).len() ==> offset
                < #[trigger] line_starts(text)[k],
    decreases text.len(),
{
    if offset == text.len() {
        assert(text.subrange(0, offset) =~= text);
        assert(line_starts(text) =~= line_starts(text).subrange(
            0,
            line_starts(text).len() as int,
        ));
    } else {
        let rest = text.drop_last();
        assert(rest.subrange(0, offset) =~= text.subrange(0, offset));
        lemma_starts_of_prefix(rest, offset);
    }
}

/// `line_of` and `line_start_of` read off the line starts of the whole text: the
/// line of `offset` is the last one whose start is at most `offset`.
pub proof fn lemma_line_of_offset(text: Seq<u8>, offset: int)
    requires
        0 <= offset <= text.len(),
    ensures
        1 <= line_of(text, offset) <= line_count(text),
        line_start_of(text, offset) == line_starts(text)[line_of(text, offset) - 1],
        line_start_of(text, offset) <= offset,
        forall|k: int| 0 <= k < line_of(text, offset) ==> #[trigger] line_starts(text)[k] <= offset,
        forall|k: int|
            line_of(text, offset) <= k < line_count(text) ==> offset < #[trigger] line_starts(
                text,
            )[k],
{
    let prefix = text.subrange(0, offset);
    lemma_starts_of_prefix(text, offset);
    lemma_line_starts_shape(prefix);
    let p = starts_up_to(text, offset);
    assert forall|k: int| 0 <= k < line_of(text, offset) implies #[trigger] line_starts(text)[k]
        <= offset by {
        assert(line_starts(text)[k] == p[k]);
    }
}

/// The line of `offset` is the one whose start is the last start at most `offset`.
pub proof fn lemma_line_of_unique(text: Seq<u8>, offset: int, k: int)
    requires
        0 <= offset <= text.len(),
        0 <= k < line_count(text),
        line_starts(text)[k] <= offset,
        k + 1 == line_count(text) || offset < line_starts(text)[k + 1],
    ensures
        line_of(text, offset) == k + 1,
        line_start_of(text, offset) == line_starts(text)[k],
{
    lemma_line_of_offset(text, offset);
    lemma_line_starts_shape(text);
    let n = line_of(text, offset);
    if n < k + 1 {
        assert(offset < line_starts(text)[k]);
    }
    if n > k + 1 {
        assert(line_starts(text)[k + 1] <= offset);
    }
}

/// Every offset up to the end of the text lies on a line between the first and the
/// last, at a column of at least 1.
pub proof fn lemma_locate_in_range(text: Seq<u8>, offset: int)
    requires
        0 <= offset <= text.len(),
    ensures
        1 <= line_of(text, offset) <= line_count(text),
        column_of(text, offset) >= 1,
{
    lemma_line_of_offset(text, offset);
}

/// Locations never go backwards: a later offset lies on the same or a later line,
/// and on the same line at the same or a later column.
pub proof fn lemma_locate_monotonic(text: Seq<u8>, i: int, j: int)
    requires
        0 <= i <= j <= text.len(),
    ensures
        line_of(text, i) <= line_of(text, j),
        line_of(text, i) == line_of(text, j) ==> column_of(text, i) <= column_of(text, j),
{
    lemma_line_of_offset(text, i);
    lemma_line_of_offset(text, j);
    if line_of(text, i) > line_of(text, j) {
        let k = line_of(text, j);
        assert(line_starts(text)[k] <= i);
        assert(j < line_starts(text)[k]);
    }
}

/// Each line start is located at that line, in column 1.
pub proof fn lemma_line_start_locates(text: Seq<u8>, k: int)
    requires
        0 <= k < line_count(text),
    ensures
        line_of(text, line_starts(text)[k]) == k + 1,
        column_of(text, line_starts(text)[k]) == 1,
{
    lemma_line_starts_shape(text);
    lemma_line_of_unique(text, line_starts(text)[k], k);
}

/// The end of the text is located on the last line, at one past its distance from
/// that line's start.
pub proof fn lemma_locate_end(text: Seq<u8>)
    ensures
        line_of(text, text.len() as int) == line_count(text),
        column_of(text, text.len() as int) == text.len() - line_starts(text).last() + 1,
{
    assert(text.subrange(0, text.len() as int) =~= text);
}

/// In an empty text, offset 0 is line 1, column 1.
pub proof fn lemma_locate_empty(text: Seq<u8>)
    requires
        text.len() == 0,
    ensures
        line_of(text, 0) == 1,
        column_of(text, 0) == 1,
{
    assert(text.subrange(0, 0) =~= text);
}

/// In valid UTF-8 the byte after a line feed begins a character, or is the end.
pub proof fn lemma_after_line_feed_is_boundary(bytes: Seq<u8>, k: int)
    requires
        valid_utf8(bytes),
        0 <= k < bytes.len(),
        bytes[k] == LINE_FEED,
    ensures
        is_char_boundary(bytes, k + 1),
    decreases bytes.len(),
{
    let width = length_of_first_scalar(bytes);
    let rest = pop_first_scalar(bytes);
    if k >= width {
        assert(rest[k - width] == bytes[k]);
        lemma_after_line_feed_is_boundary(rest, k - width);
    } else {
        reveal_with_fuel(is_char_boundary, 2);
    }
}

} // verus!

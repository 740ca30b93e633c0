//! This module includes various conversions between index-based [`Span`]s and the
//! line-and-column [`Range`]s of the language server protocol.

use vstd::prelude::*;
use crate::chars::utf16_len;

verus! {

/// A place in a document: a zero-based line, and a zero-based column in UTF-16 code units.
#[derive(Debug, Clone, Copy, PartialEq, Eq, Structural)]
pub struct Position {
    pub line: u32,
    pub character: u32,
}

/// A stretch of a document between two positions, the end excluded.
#[derive(Debug, Clone, Copy, PartialEq, Eq, Structural)]
pub struct Range {
    pub start: Position,
    pub end: Position,
}

/// A stretch of a document by character indices, the end excluded.
#[derive(Debug, Clone, Copy, PartialEq, Eq, Structural)]
pub struct Span {
    pub start: usize,
    pub end: usize,
}

impl Span {
    /// The span from `start` up to `end`.
    pub fn new(start: usize, end: usize) -> (span: Self)
        ensures
            span.start == start,
            span.end == end,
    {
        Span { start, end }
    }
}

/// The index of the first character of each line: 0, and the index after each line feed.
pub open spec fn line_starts(source: Seq<char>) -> Seq<usize>
    decreases source.len(),
{
    if source.len() == 0 {
        seq![0usize]
    } else if source.last() == '\n' {
        line_starts(source.drop_last()).push(source.len() as usize)
    } else {
        line_starts(source.drop_last())
    }
}

/// Whether line starts belong to a text of `len` characters: they ascend and none is beyond it.
pub open spec fn starts_fit(starts: Seq<usize>, len: nat) -> bool {
    &&& forall|i: int| 0 <= i < starts.len() ==> #[trigger] starts[i] <= len
    &&& starts_ascend(starts)
}

/// Whether line starts ascend from zero, if there are any.
pub open spec fn starts_ascend(starts: Seq<usize>) -> bool {
    &&& forall|i: int, j: int| 0 <= i < j < starts.len() ==> starts[i] < starts[j]
    &&& starts.len() > 0 ==> starts[0] == 0
}

/// Whether a line, if it is recorded, lies within a text of `len` characters.
pub open spec fn line_lies_within(starts: Seq<usize>, len: nat, line: nat) -> bool {
    line < starts.len() ==> start_of(starts, line) <= end_of(starts, line, len) <= len
}

/// Whether the line of an index starts within a text of `len` characters.
pub open spec fn line_starts_within(starts: Seq<usize>, len: nat, index: nat) -> bool {
    start_of(starts, line_of(starts, index)) <= len
}

/// The last line that starts at or before `index`.
pub open spec fn line_of(starts: Seq<usize>, index: nat) -> nat
    decreases starts.len(),
{
    if starts.len() <= 1 {
        0
    } else if starts.last() <= index {
        (starts.len() - 1) as nat
    } else {
        line_of(starts.drop_last(), index)
    }
}

/// Where a line starts; a text without any recorded line starts at 0.
pub open spec fn start_of(starts: Seq<usize>, line: nat) -> nat {
    if line < starts.len() {
        starts[line as int] as nat
    } else {
        0
    }
}

/// Where a line of a text of `len` characters ends, its line feed included.
pub open spec fn end_of(starts: Seq<usize>, line: nat, len: nat) -> nat {
    if line + 1 < starts.len() {
        starts[line as int + 1] as nat
    } else {
        len
    }
}

/// The number of UTF-16 code units from `from` up to `to`.
pub open spec fn columns(source: Seq<char>, from: nat, to: nat) -> nat
    decreases to,
{
    if to <= from {
        0
    } else {
        columns(source, from, (to - 1) as nat) + utf16_len(source[to - 1])
    }
}

/// The number of values that a line or a column can have.
pub const POSITION_VALUES: u64 = 0x1_0000_0000;

/// The position of a character index. A number too large for the protocol loses its upper bits.
pub open spec fn position_of(source: Seq<char>, starts: Seq<usize>, index: nat) -> Position {
    let line = line_of(starts, index);
    let upto = if index <= source.len() {
        index
    } else {
        source.len()
    };
    Position {
        line: (line % (POSITION_VALUES as nat)) as u32,
        character: (columns(source, start_of(starts, line), upto) % (POSITION_VALUES as nat)) as u32,
    }
}

/// One less, but never below zero.
pub open spec fn one_less(n: nat) -> nat {
    if n == 0 {
        0
    } else {
        (n - 1) as nat
    }
}

/// Where the content of a line ends: before its line feed, if it has one.
pub open spec fn content_end(source: Seq<char>, line_start: nat, line_end: nat) -> nat {
    if line_start < line_end <= source.len() && source[line_end - 1] == '\n' {
        (line_end - 1) as nat
    } else {
        line_end
    }
}

/// The index of the character that holds the given column, counted from `at`, or `end` where the
/// text up to there has no such column.
pub open spec fn index_of_column(source: Seq<char>, at: nat, end: nat, column: nat) -> nat
    decreases end - at,
{
    if at >= end || column < utf16_len(source[at as int]) {
        at
    } else {
        index_of_column(source, at + 1, end, (column - utf16_len(source[at as int])) as nat)
    }
}

/// The index that a column of the line from `line_start` to `line_end` stands for. A column
/// beyond the content stands for the last character of the line.
pub open spec fn index_in_line(
    source: Seq<char>,
    line_start: nat,
    line_end: nat,
    column: nat,
) -> nat {
    let content = content_end(source, line_start, line_end);
    if column <= columns(source, line_start, content) {
        index_of_column(source, line_start, content, column)
    } else {
        one_less(line_end)
    }
}

/// The index that a position stands for. A line beyond the text stands for its last character.
pub open spec fn index_of(source: Seq<char>, starts: Seq<usize>, position: Position) -> nat {
    if position.line >= starts.len() {
        one_less(source.len())
    } else {
        index_in_line(
            source,
            starts[position.line as int] as nat,
            end_of(starts, position.line as nat, source.len()),
            position.character as nat,
        )
    }
}

/// Whether a position lies beyond its line or beyond the lines of the text.
pub open spec fn out_of_bounds(
    source: Seq<char>,
    starts: Seq<usize>,
    position: Position,
) -> bool {
    ||| position.line >= starts.len()
    ||| position.character > columns(
        source,
        starts[position.line as int] as nat,
        content_end(
            source,
            starts[position.line as int] as nat,
            end_of(starts, position.line as nat, source.len()),
        ),
    )
}

/// Pre-built index of line start positions for fast position conversion.
/// Avoids scanning of the entire document on every position lookup.
#[derive(Debug)]
pub struct LineIndex {
    /// Indices of the first character of each line.
    line_starts: Vec<usize>,
}

impl View for LineIndex {
    type V = Seq<usize>;

    closed spec fn view(&self) -> Seq<usize> {
        self.line_starts@
    }
}

impl Clone for LineIndex {
    fn clone(&self) -> (index: Self)
        ensures
            index@ == self@,
    {
        proof {
            use_type_invariant(self);
        }
        LineIndex { line_starts: self.line_starts.clone() }
    }
}

impl Default for LineIndex {
    /// An index without any line.
    fn default() -> (index: Self)
        ensures
            index@ == Seq::<usize>::empty(),
    {
        LineIndex { line_starts: Vec::new() }
    }
}

impl LineIndex {
    #[verifier::type_invariant]
    spec fn is_ascending(self) -> bool {
        starts_ascend(self.line_starts@)
    }

    /// Whether the recorded lines lie within the text, as they do where the index was built from
    /// it, and where the index is the empty default.
    pub open spec fn fits(&self, source: Seq<char>) -> bool {
        starts_fit(self@, source.len())
    }

    /// Build a new LineIndex from source characters.
    /// Scans the document once to find all line boundaries.
    pub fn new(source: &[char]) -> (index: Self)
        ensures
            index@ == line_starts(source@),
            index.fits(source@),
    {
        let mut starts: Vec<usize> = Vec::new();
        starts.push(0);  // First line always starts at 0
        let mut i: usize = 0;
        while i < source.len()
            invariant
                i <= source@.len(),
                starts@ == line_starts(source@.take(i as int)),
            decreases source@.len() - i,
        {
            assert(source@.take(i + 1).drop_last() == source@.take(i as int));
            if source[i] == '\n' {
                // Next line starts after this newline
                starts.push(i + 1);
            }
            i += 1;
        }
        proof {
            assert(source@.take(source@.len() as int) == source@);
            line_starts_fit(source@);
        }
        LineIndex { line_starts: starts }
    }

    /// Convert a character index to a position, by binary search on line starts.
    pub fn index_to_position(&self, source: &[char], index: usize) -> (position: Position)
        requires
            line_starts_within(self@, source@.len(), index as nat),
        ensures
            position == position_of(source@, self@, index as nat),
    {
        proof {
            use_type_invariant(self);
        }
        let line = self.find_line(index);
        let line_start: usize = if line < self.line_starts.len() {
            self.line_starts[line]
        } else {
            0
        };
        let upto: usize = if index <= source.len() {
            index
        } else {
            source.len()
        };
        proof {
            line_of_is_last(self@, index as nat);
        }
        Position {
            line: (line as u64 % 0x1_0000_0000) as u32,
            character: count_columns(source, line_start, upto),
        }
    }

    /// The last line that starts at or before `index`.
    fn find_line(&self, index: usize) -> (line: usize)
        ensures
            line == line_of(self@, index as nat),
    {
        proof {
            use_type_invariant(self);
        }
        let mut low: usize = 0;
        let mut high: usize = self.line_starts.len();
        if high == 0 {
            return 0;
        }
        while high - low > 1
            invariant
                0 <= low < high <= self@.len(),
                self@ == self.line_starts@,
                starts_ascend(self@),
                self@[low as int] <= index,
                high < self@.len() ==> self@[high as int] > index,
            decreases high - low,
        {
            let middle = low + (high - low) / 2;
            if self.line_starts[middle] <= index {
                low = middle;
            } else {
                high = middle;
            }
        }
        proof {
            line_of_is_last(self@, index as nat);
            let line = line_of(self@, index as nat) as int;
            if line < low {
                assert(self@[line + 1] <= self@[low as int]);
            }
            if line > low {
                assert(self@[high as int] <= self@[line]);
            }
        }
        low
    }

    /// Convert a position to a character index.
    pub fn position_to_index(&self, source: &[char], position: Position) -> (index: usize)
        requires
            line_lies_within(self@, source@.len(), position.line as nat),
        ensures
            index == index_of(source@, self@, position),
    {
        // Find target line start index
        let line_idx = position.line as usize;
        if line_idx >= self.line_starts.len() {
            // Requested line doesn't exist - return last character
            return source.len().saturating_sub(1);
        }
        let line_start = self.line_starts[line_idx];
        // Find where this line ends (at next line start or end of source)
        let line_end: usize = if line_idx + 1 < self.line_starts.len() {
            self.line_starts[line_idx + 1]
        } else {
            source.len()
        };
        position_to_index_in_line(source, line_start, line_end, position.character)
    }

    /// Convert a Span to a Range using this line index.
    pub fn span_to_range(&self, source: &[char], span: Span) -> (range: Range)
        requires
            line_starts_within(self@, source@.len(), span.start as nat),
            line_starts_within(self@, source@.len(), span.end as nat),
        ensures
            range.start == position_of(source@, self@, span.start as nat),
            range.end == position_of(source@, self@, span.end as nat),
    {
        let start = self.index_to_position(source, span.start);
        let end = self.index_to_position(source, span.end);
        Range { start, end }
    }

    /// Convert a Range to a Span using this line index.
    pub fn range_to_span(&self, source: &[char], range: Range) -> (span: Span)
        requires
            line_lies_within(self@, source@.len(), range.start.line as nat),
            line_lies_within(self@, source@.len(), range.end.line as nat),
        ensures
            span.start == index_of(source@, self@, range.start),
            span.end == index_of(source@, self@, range.end),
    {
        let start = self.position_to_index(source, range.start);
        let end = self.position_to_index(source, range.end);
        Span::new(start, end)
    }

    /// Check if a position is beyond the current document bounds.
    /// Returns true if the position would be clamped by position_to_index.
    /// Useful for detecting race conditions where completion requests arrive
    /// before the corresponding didChange notification.
    pub fn is_position_out_of_bounds(&self, source: &[char], position: Position) -> (out: bool)
        requires
            line_lies_within(self@, source@.len(), position.line as nat),
        ensures
            out == out_of_bounds(source@, self@, position),
    {
        let line_idx = position.line as usize;
        // Check if line exists
        if line_idx >= self.line_starts.len() {
            return true;
        }
        let line_start = self.line_starts[line_idx];
        let line_end: usize = if line_idx + 1 < self.line_starts.len() {
            self.line_starts[line_idx + 1]
        } else {
            source.len()
        };
        let end = line_content_end(source, line_start, line_end);
        // Position is out of bounds if character is beyond line content length.
        // Character N means "after N UTF-16 code units", so for a line with N
        // code units, position N is at the end and still valid.
        let target = position.character as u64;
        let mut seen: u64 = 0;
        let mut at: usize = line_start;
        while at < end
            invariant
                line_start <= at <= end <= source@.len() || line_start == at == end,
                end <= source@.len(),
                seen == columns(source@, line_start as nat, at as nat),
                seen <= target == position.character,
                end == content_end(source@, line_start as nat, line_end as nat),
                line_idx == position.line < self@.len(),
                line_start == self@[line_idx as int],
                line_end == end_of(self@, line_idx as nat, source@.len()),
            decreases end - at,
        {
            let width = source[at].len_utf16();
            if target - seen <= width as u64 {
                proof {
                    columns_grow(source@, line_start as nat, (at + 1) as nat, end as nat);
                }
                return false;
            }
            seen += width as u64;
            at += 1;
        }
        target > seen
    }
}

/// Where the content of a line ends.
pub fn line_content_end(source: &[char], line_start: usize, line_end: usize) -> (end: usize)
    ensures
        end == content_end(source@, line_start as nat, line_end as nat),
        end <= line_end,
        line_start <= line_end ==> line_start <= end,
{
    if line_end > line_start && line_end <= source.len() && source[line_end - 1] == '\n' {
        line_end - 1
    } else {
        line_end
    }
}

/// The index that a column of one line stands for.
pub fn position_to_index_in_line(
    source: &[char],
    line_start: usize,
    line_end: usize,
    utf16_character: u32,
) -> (index: usize)
    requires
        line_start <= line_end <= source@.len(),
    ensures
        index == index_in_line(
            source@,
            line_start as nat,
            line_end as nat,
            utf16_character as nat,
        ),
{
    let end = line_content_end(source, line_start, line_end);
    let mut left: u32 = utf16_character;
    let mut at: usize = line_start;
    while at < end
        invariant
            line_start <= at <= end <= source@.len(),
            utf16_character == left + columns(source@, line_start as nat, at as nat),
            index_of_column(source@, line_start as nat, end as nat, utf16_character as nat)
                == index_of_column(source@, at as nat, end as nat, left as nat),
            end == content_end(source@, line_start as nat, line_end as nat),
        decreases end - at,
    {
        let width = source[at].len_utf16() as u32;
        if left < width {
            proof {
                columns_grow(source@, line_start as nat, (at + 1) as nat, end as nat);
            }
            return at;
        }
        left -= width;
        at += 1;
    }
    if left == 0 {
        end
    } else {
        line_end.saturating_sub(1)
    }
}

/// The number of UTF-16 code units between two indices, without the bits that a column lacks.
fn count_columns(source: &[char], from: usize, to: usize) -> (n: u32)
    requires
        to <= source@.len(),
    ensures
        n == columns(source@, from as nat, to as nat) % (POSITION_VALUES as nat),
{
    let mut n: u32 = 0;
    let mut at: usize = from;
    while at < to
        invariant
            from <= at,
            from < to ==> at <= to,
            from >= to ==> at == from,
            to <= source@.len(),
            n == columns(source@, from as nat, at as nat) % (POSITION_VALUES as nat),
        decreases to - at,
    {
        n = n.wrapping_add(source[at].len_utf16() as u32);
        at += 1;
    }
    if from >= to {
        assert(columns(source@, from as nat, to as nat) == 0);
    }
    n
}

/// Converts a span to a range.
pub fn span_to_range(source: &[char], span: Span) -> (range: Range)
    requires
        span.start <= source@.len(),
        span.end <= source@.len(),
    ensures
        range.start == position_of(source@, line_starts(source@), span.start as nat),
        range.end == position_of(source@, line_starts(source@), span.end as nat),
{
    let start = index_to_position(source, span.start);
    let end = index_to_position(source, span.end);
    Range { start, end }
}

/// Converts a character index to a position.
pub fn index_to_position(source: &[char], index: usize) -> (position: Position)
    requires
        index <= source@.len(),
    ensures
        position == position_of(source@, line_starts(source@), index as nat),
{
    let lines = LineIndex::new(source);
    proof {
        fitting_lines_lie_within(lines@, source@.len());
    }
    lines.index_to_position(source, index)
}

/// Converts a position to a (zero-based) character index within the source character array.
///
/// The position is converted to an index using saturating arithmetic. If the requested line index
/// is too high, the index of the last character in the source is returned. If the line is
/// in-bounds but the requested character isn't, the last character of that line is returned.
pub fn position_to_index(source: &[char], position: Position) -> (index: usize)
    ensures
        index == index_of(source@, line_starts(source@), position),
{
    let lines = LineIndex::new(source);
    proof {
        fitting_lines_lie_within(lines@, source@.len());
    }
    lines.position_to_index(source, position)
}

/// Converts a range to a span.
pub fn range_to_span(source: &[char], range: Range) -> (span: Span)
    ensures
        span.start == index_of(source@, line_starts(source@), range.start),
        span.end == index_of(source@, line_starts(source@), range.end),
{
    let start = position_to_index(source, range.start);
    let end = position_to_index(source, range.end);
    Span::new(start, end)
}

proof fn line_starts_fit(source: Seq<char>)
    requires
        source.len() <= usize::MAX,
    ensures
        starts_fit(line_starts(source), source.len()),
        line_starts(source).len() > 0,
        line_starts(source).len() <= source.len() + 1,
    decreases source.len(),
{
    if source.len() > 0 {
        line_starts_fit(source.drop_last());
    }
}

/// Where the line starts fit a text, every line lies within it.
pub proof fn fitting_lines_lie_within(starts: Seq<usize>, len: nat)
    requires
        starts_fit(starts, len),
    ensures
        forall|line: nat| #[trigger] line_lies_within(starts, len, line),
        forall|index: nat| #[trigger] line_starts_within(starts, len, index),
{
    assert forall|index: nat| #[trigger] line_starts_within(starts, len, index) by {
        line_of_is_last(starts, index);
    }
}

proof fn line_of_is_last(starts: Seq<usize>, index: nat)
    requires
        starts_ascend(starts),
    ensures
        starts.len() > 0 ==> line_of(starts, index) < starts.len(),
        starts.len() == 0 ==> line_of(starts, index) == 0,
        start_of(starts, line_of(starts, index)) <= index,
        line_of(starts, index) + 1 < starts.len() ==> index < starts[line_of(starts, index) as int + 1],
    decreases starts.len(),
{
    if starts.len() > 1 && starts.last() > index {
        line_of_is_last(starts.drop_last(), index);
    }
}

proof fn columns_grow(source: Seq<char>, from: nat, near: nat, far: nat)
    requires
        near <= far,
    ensures
        columns(source, from, near) <= columns(source, from, far),
    decreases far - near,
{
    if near < far {
        columns_grow(source, from, near, (far - 1) as nat);
    }
}

/// Every line but the first starts right after a line feed, and a line starts after each.
proof fn lines_start_after_feeds(source: Seq<char>)
    requires
        source.len() <= usize::MAX,
    ensures
        forall|k: int|
            0 < k < line_starts(source).len() ==> 0 < #[trigger] line_starts(source)[k]
                <= source.len() && source[line_starts(source)[k] - 1] == '\n',
        forall|i: int|
            0 <= i < source.len() && #[trigger] source[i] == '\n' ==> line_starts(source).contains(
                (i + 1) as usize,
            ),
    decreases source.len(),
{
    if source.len() > 0 {
        let shorter = source.drop_last();
        lines_start_after_feeds(shorter);
        line_starts_fit(shorter);
        let starts = line_starts(source);
        let fewer = line_starts(shorter);
        assert forall|k: int| 0 < k < starts.len() implies 0 < #[trigger] starts[k]
            <= source.len() && source[starts[k] - 1] == '\n' by {
            if k < fewer.len() {
                assert(starts[k] == fewer[k]);
                assert(shorter[fewer[k] - 1] == '\n');
            }
        }
        assert forall|i: int|
            0 <= i < source.len() && #[trigger] source[i] == '\n' implies starts.contains(
            (i + 1) as usize,
        ) by {
            if i < shorter.len() {
                assert(shorter[i] == '\n');
                let k = choose|k: int| 0 <= k < fewer.len() && fewer[k] == (i + 1) as usize;
                assert(starts[k] == fewer[k]);
            } else {
                assert(starts[starts.len() - 1] == source.len());
            }
        }
    }
}

proof fn columns_from_the_left(source: Seq<char>, from: nat, to: nat)
    requires
        from < to,
    ensures
        columns(source, from, to) == utf16_len(source[from as int]) + columns(
            source,
            from + 1,
            to,
        ),
    decreases to,
{
    if from + 1 < to {
        columns_from_the_left(source, from, (to - 1) as nat);
    } else {
        assert(columns(source, from, from) == 0);
        assert(columns(source, to, to) == 0);
    }
}

proof fn columns_are_few(source: Seq<char>, from: nat, to: nat)
    requires
        from <= to,
    ensures
        to - from <= columns(source, from, to) <= 2 * (to - from),
    decreases to,
{
    if from < to {
        columns_are_few(source, from, (to - 1) as nat);
    }
}

proof fn column_of_an_index_leads_back(source: Seq<char>, at: nat, index: nat, end: nat)
    requires
        at <= index <= end,
    ensures
        index_of_column(source, at, end, columns(source, at, index)) == index,
    decreases index - at,
{
    if at < index {
        columns_from_the_left(source, at, index);
        column_of_an_index_leads_back(source, at + 1, index, end);
    }
}

proof fn column_leads_to_its_character(source: Seq<char>, at: nat, end: nat, column: nat)
    requires
        at <= end,
        column <= columns(source, at, end),
    ensures
        at <= index_of_column(source, at, end, column) <= end,
        columns(source, at, index_of_column(source, at, end, column)) <= column,
        column - columns(source, at, index_of_column(source, at, end, column)) <= 1,
    decreases end - at,
{
    if at < end {
        columns_from_the_left(source, at, end);
        let width = utf16_len(source[at as int]);
        if column >= width {
            column_leads_to_its_character(source, at + 1, end, (column - width) as nat);
            columns_from_the_left(source, at, index_of_column(source, at, end, column));
        }
    }
}

/// Where an index lies in its line: not before its start, and within its content.
proof fn index_lies_in_its_line(source: Seq<char>, index: nat)
    requires
        index <= source.len() <= usize::MAX,
    ensures
        ({
            let starts = line_starts(source);
            let line = line_of(starts, index);
            let start = starts[line as int] as nat;
            let end = end_of(starts, line, source.len());
            &&& line < starts.len() <= source.len() + 1
            &&& start <= index <= content_end(source, start, end)
            &&& start <= content_end(source, start, end) <= end <= source.len()
        }),
{
    let starts = line_starts(source);
    let line = line_of(starts, index);
    line_starts_fit(source);
    line_of_is_last(starts, index);
    lines_start_after_feeds(source);
    let start = starts[line as int] as nat;
    let end = end_of(starts, line, source.len());
    if line + 1 == starts.len() && end > start && source[end - 1] == '\n' {
        let k = choose|k: int| 0 <= k < starts.len() && starts[k] == end as usize;
        assert(starts[k] == end as usize);
        assert(k <= line);
        assert(starts[k] <= starts[line as int]);
    }
}

/// Turning an index into a position and back gives the same index.
pub proof fn index_survives_the_round_trip(source: Seq<char>, index: nat)
    requires
        index <= source.len(),
        2 * source.len() + 1 < POSITION_VALUES,
    ensures
        index_of(
            source,
            line_starts(source),
            position_of(source, line_starts(source), index),
        ) == index,
{
    let starts = line_starts(source);
    let line = line_of(starts, index);
    index_lies_in_its_line(source, index);
    let start = starts[line as int] as nat;
    let end = end_of(starts, line, source.len());
    let content = content_end(source, start, end);
    columns_are_few(source, start, index);
    columns_grow(source, start, index, content);
    column_of_an_index_leads_back(source, start, index, content);
}

proof fn line_of_a_place_in_it(starts: Seq<usize>, line: nat, index: nat)
    requires
        forall|i: int, j: int| 0 <= i < j < starts.len() ==> starts[i] < starts[j],
        starts.len() > 0 ==> starts[0] == 0,
        line < starts.len(),
        starts[line as int] <= index,
        line + 1 < starts.len() ==> index < starts[line as int + 1],
    ensures
        line_of(starts, index) == line,
{
    line_of_is_last(starts, index);
    let found = line_of(starts, index);
    if found < line {
        assert(starts[found as int + 1] <= starts[line as int]);
    }
    if found > line {
        assert(starts[line as int + 1] <= starts[found as int]);
    }
}

/// Turning a position within the text into an index and back gives the same position, or the
/// column just before where the position splits a character of two code units.
pub proof fn position_survives_the_round_trip(source: Seq<char>, position: Position)
    requires
        2 * source.len() + 1 < POSITION_VALUES,
        !out_of_bounds(source, line_starts(source), position),
    ensures
        ({
            let starts = line_starts(source);
            let back = position_of(source, starts, index_of(source, starts, position));
            &&& back.line == position.line
            &&& back.character <= position.character <= back.character + 1
        }),
{
    let starts = line_starts(source);
    let line = position.line as nat;
    line_starts_fit(source);
    lines_start_after_feeds(source);
    let start = starts[line as int] as nat;
    let end = end_of(starts, line, source.len());
    assert(start <= end <= source.len());
    let content = content_end(source, start, end);
    column_leads_to_its_character(source, start, content, position.character as nat);
    let index = index_of(source, starts, position);
    if line + 1 < starts.len() {
        assert(starts[line as int] < starts[line as int + 1]);
        assert(source[starts[line as int + 1] - 1] == '\n');
    }
    line_of_a_place_in_it(starts, line, index);
    columns_are_few(source, start, index);
}

/// Turning a span into a range and back gives the same span.
pub proof fn span_survives_the_round_trip(source: Seq<char>, span: Span)
    requires
        span.start <= source.len(),
        span.end <= source.len(),
        2 * source.len() + 1 < POSITION_VALUES,
    ensures
        index_of(
            source,
            line_starts(source),
            position_of(source, line_starts(source), span.start as nat),
        ) == span.start,
        index_of(
            source,
            line_starts(source),
            position_of(source, line_starts(source), span.end as nat),
        ) == span.end,
{
    index_survives_the_round_trip(source, span.start as nat);
    index_survives_the_round_trip(source, span.end as nat);
}

/// A position never leads beyond the text, and beyond its last character only where it lies at
/// the very end.
pub proof fn positions_lead_into_the_text(source: Seq<char>, position: Position)
    requires
        source.len() <= usize::MAX,
    ensures
        index_of(source, line_starts(source), position) <= source.len(),
        out_of_bounds(source, line_starts(source), position) && source.len() > 0 ==> index_of(
            source,
            line_starts(source),
            position,
        ) < source.len(),
{
    let starts = line_starts(source);
    line_starts_fit(source);
    if position.line < starts.len() {
        let line = position.line as int;
        let start = starts[line] as nat;
        let end = end_of(starts, line as nat, source.len());
        if line + 1 < starts.len() {
            assert(starts[line] < starts[line + 1]);
        }
        let content = content_end(source, start, end);
        if position.character <= columns(source, start, content) {
            column_leads_to_its_character(source, start, content, position.character as nat);
        }
    }
}

/// A line too many stands for the last character of the text, a column too many for the last
/// character of the line.
pub proof fn positions_out_of_bounds_are_clamped(source: Seq<char>, position: Position)
    requires
        out_of_bounds(source, line_starts(source), position),
    ensures
        index_of(source, line_starts(source), position) == one_less(
            if position.line >= line_starts(source).len() {
                source.len()
            } else {
                end_of(line_starts(source), position.line as nat, source.len())
            },
        ),
{
}

/// A later index never has an earlier position.
pub proof fn positions_keep_the_order(source: Seq<char>, earlier: nat, later: nat)
    requires
        earlier <= later <= source.len(),
        2 * source.len() + 1 < POSITION_VALUES,
    ensures
        ({
            let starts = line_starts(source);
            let a = position_of(source, starts, earlier);
            let b = position_of(source, starts, later);
            a.line < b.line || (a.line == b.line && a.character <= b.character)
        }),
{
    let starts = line_starts(source);
    index_lies_in_its_line(source, earlier);
    index_lies_in_its_line(source, later);
    line_starts_fit(source);
    line_of_is_last(starts, earlier);
    line_of_is_last(starts, later);
    let a = line_of(starts, earlier);
    let b = line_of(starts, later);
    if b < a {
        assert(starts[b as int + 1] <= starts[a as int]);
    }
    columns_are_few(source, starts[a as int] as nat, earlier);
    columns_are_few(source, starts[b as int] as nat, later);
    columns_grow(source, starts[a as int] as nat, earlier, later);
}

/// The first character stands at the first column of the first line. After each character the
/// position moves on: to the start of the next line after a line feed, and else by one column,
/// or by two after a character beyond the basic multilingual plane.
pub proof fn positions_move_on_with_each_character(source: Seq<char>, index: nat)
    requires
        2 * source.len() + 1 < 0x1_0000_0000,
        index < source.len(),
    ensures
        ({
            let starts = line_starts(source);
            let here = position_of(source, starts, index);
            let next = position_of(source, starts, index + 1);
            &&& position_of(source, starts, 0) == (Position { line: 0, character: 0 })
            &&& source[index as int] == '\n' ==> next.line == here.line + 1 && next.character == 0
            &&& source[index as int] != '\n' ==> next.line == here.line && next.character
                == here.character + (if source[index as int] as u32 >= 0x10000 {
                2int
            } else {
                1int
            })
        }),
{
    let starts = line_starts(source);
    line_starts_fit(source);
    lines_start_after_feeds(source);
    let here = line_of(starts, index);
    let next = line_of(starts, index + 1);
    line_of_is_last(starts, 0);
    line_of_is_last(starts, index);
    line_of_is_last(starts, index + 1);
    let first = start_of(starts, here);
    columns_are_few(source, first, index);
    columns_are_few(source, first, index + 1);
    assert(line_of(starts, 0) == 0) by {
        if line_of(starts, 0) > 0 {
            assert(starts[0] < starts[line_of(starts, 0) as int]);
        }
    }
    assert(columns(source, 0, 0) == 0);
    if source[index as int] == '\n' {
        assert(starts.contains((index + 1) as usize));
        let k = choose|k: int| 0 <= k < starts.len() && starts[k] == (index + 1) as usize;
        line_of_a_place_in_it(starts, k as nat, index + 1);
        assert(k > here) by {
            if k < here {
                assert(starts[k] < starts[here as int]);
            }
        }
        if k > here + 1 {
            assert(starts[here as int + 1] < starts[k]);
        }
        assert(columns(source, index + 1, index + 1) == 0);
    } else {
        assert(here == next) by {
            if here + 1 < starts.len() {
                let s = starts[here as int + 1];
                if s == index + 1 {
                    assert(source[s - 1] == '\n');
                }
            }
            line_of_a_place_in_it(starts, here, index + 1);
        }
    }
}

/// The positions of the characters and that of the end of the text are in bounds. Behind the end
/// of a line, that is, beyond the position of its line feed or of the end of the text, a column
/// is out of bounds, and leads to the line feed, or to the last character of the text; columns up
/// to there are in bounds.
pub proof fn columns_end_with_the_line(source: Seq<char>, end: nat, column: u32)
    requires
        2 * source.len() + 1 < 0x1_0000_0000,
        end <= source.len(),
        end == source.len() || source[end as int] == '\n',
    ensures
        ({
            let starts = line_starts(source);
            let last = position_of(source, starts, end);
            let position = Position { line: last.line, character: column };
            &&& out_of_bounds(source, starts, position) == (column > last.character)
            &&& column > last.character ==> index_of(source, starts, position) == if end
                < source.len() {
                end
            } else if end > 0 {
                (end - 1) as nat
            } else {
                0
            }
            &&& column == last.character ==> index_of(source, starts, position) == end
        }),
{
    let starts = line_starts(source);
    index_survives_the_round_trip(source, end);
    line_starts_fit(source);
    lines_start_after_feeds(source);
    line_of_is_last(starts, end);
    let line = line_of(starts, end);
    let first = start_of(starts, line);
    columns_are_few(source, first, end);
    let stop = end_of(starts, line, source.len());
    if end < source.len() {
        assert(starts.contains((end + 1) as usize));
        let k = choose|k: int| 0 <= k < starts.len() && starts[k] == (end + 1) as usize;
        assert(k > line) by {
            if k < line {
                assert(starts[k] < starts[line as int]);
            }
        }
        if k > line + 1 {
            assert(starts[line as int + 1] < starts[k]);
        }
        assert(stop == end + 1);
        assert(content_end(source, first, stop) == end);
    } else {
        if line + 1 < starts.len() {
            assert(starts[line as int + 1] <= source.len());
        }
        assert(stop == source.len());
        if first < stop && source[stop - 1] == '\n' {
            assert(starts.contains(stop as usize));
            let k = choose|k: int| 0 <= k < starts.len() && starts[k] == stop as usize;
            if k > line {
                assert(starts[line as int + 1] <= starts[k]) by {
                    if k > line + 1 {
                        assert(starts[line as int + 1] < starts[k]);
                    }
                }
            } else if k < line {
                assert(starts[k] < starts[line as int]);
            }
        }
        assert(content_end(source, first, stop) == end);
    }
}

/// A line that the text does not have is out of bounds, and leads to the last character.
pub proof fn lines_end_with_the_text(source: Seq<char>, position: Position)
    requires
        2 * source.len() + 1 < 0x1_0000_0000,
        position.line > position_of(source, line_starts(source), source.len()).line,
    ensures
        out_of_bounds(source, line_starts(source), position),
        index_of(source, line_starts(source), position) == if source.len() > 0 {
            (source.len() - 1) as nat
        } else {
            0
        },
{
    let starts = line_starts(source);
    line_starts_fit(source);
    line_of_is_last(starts, source.len());
    let line = line_of(starts, source.len());
    if line + 1 < starts.len() {
        assert(starts[line as int + 1] <= source.len());
    }
}

} // verus!

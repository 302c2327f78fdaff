//! Strongly typed text units: byte offsets, line indices, grapheme columns,
//! view-relative line indices, and the generic `Location` / `Range` built from
//! them.

use vstd::prelude::*;

verus! {

// =============
// === Byte ===
// =============

/// A byte offset (or byte count) in a text.
#[derive(Clone, Copy, Debug, PartialEq, Eq, Structural)]
pub struct Byte {
    pub value: usize,
}

impl Byte {
    /// Constructor.
    pub fn new(value: usize) -> (r: Byte)
        ensures
            r.value == value,
    {
        Byte { value }
    }
}

/// A signed difference of two byte offsets. Wide enough to hold the
/// difference of any two `usize` values.
#[derive(Clone, Copy, Debug, PartialEq, Eq, Structural)]
pub struct ByteDiff {
    pub value: i128,
}

impl ByteDiff {
    /// Constructor.
    pub fn new(value: i128) -> (r: ByteDiff)
        ensures
            r.value == value,
    {
        ByteDiff { value }
    }
}

// ============
// === Line ===
// ============

/// A logical line index.
#[derive(Clone, Copy, Debug, PartialEq, Eq, Structural)]
pub struct Line {
    pub value: usize,
}

impl Line {
    /// Constructor.
    pub fn new(value: usize) -> (r: Line)
        ensures
            r.value == value,
    {
        Line { value }
    }
}

/// A signed difference of two line indices. Wide enough to hold the
/// difference of any two `usize` values.
#[derive(Clone, Copy, Debug, PartialEq, Eq, Structural)]
pub struct LineDiff {
    pub value: i128,
}

impl LineDiff {
    /// Constructor.
    pub fn new(value: i128) -> (r: LineDiff)
        ensures
            r.value == value,
    {
        LineDiff { value }
    }
}

// ================
// === ViewLine ===
// ================

/// A line index relative to the first line visible in the view.
#[derive(Clone, Copy, Debug, PartialEq, Eq, Structural)]
pub struct ViewLine {
    pub value: usize,
}

impl ViewLine {
    /// Constructor.
    pub fn new(value: usize) -> (r: ViewLine)
        ensures
            r.value == value,
    {
        ViewLine { value }
    }
}

// ==============
// === Column ===
// ==============

/// A grapheme-cluster index within one line.
#[derive(Clone, Copy, Debug, PartialEq, Eq, Structural)]
pub struct Column {
    pub value: usize,
}

impl Column {
    /// Constructor.
    pub fn new(value: usize) -> (r: Column)
        ensures
            r.value == value,
    {
        Column { value }
    }
}

/// A code-point index within one line.
#[derive(Clone, Copy, Debug, PartialEq, Eq, Structural)]
pub struct CodePointIndex {
    pub value: usize,
}

impl CodePointIndex {
    /// Constructor.
    pub fn new(value: usize) -> (r: CodePointIndex)
        ensures
            r.value == value,
    {
        CodePointIndex { value }
    }
}

// ================
// === Location ===
// ================

/// A point in a text, expressed as a line unit and an offset unit within that
/// line. The offset unit is `Byte` or `Column`; the line unit is `Line` or
/// `ViewLine`.
#[derive(Clone, Copy, Debug, PartialEq, Eq, Structural)]
pub struct Location<Offset, LineIndex> {
    pub line: LineIndex,
    pub offset: Offset,
}

impl<Offset, LineIndex> Location<Offset, LineIndex> {
    /// Constructor.
    pub fn new(line: LineIndex, offset: Offset) -> (r: Location<Offset, LineIndex>)
        ensures
            r.line == line,
            r.offset == offset,
    {
        Location { line, offset }
    }

    /// The same location with another offset.
    pub fn with_offset<Offset2>(self, offset: Offset2) -> (r: Location<Offset2, LineIndex>)
        ensures
            r.line == self.line,
            r.offset == offset,
    {
        Location { line: self.line, offset }
    }

    /// The same location with another line.
    pub fn with_line<Line2>(self, line: Line2) -> (r: Location<Offset, Line2>)
        ensures
            r.line == line,
            r.offset == self.offset,
    {
        Location { line, offset: self.offset }
    }
}

impl<Offset> Location<Offset, Line> {
    /// The same location one line earlier.
    pub fn dec_line(self) -> (r: Location<Offset, Line>)
        requires
            self.line.value > 0,
        ensures
            r.line.value == self.line.value - 1,
            r.offset == self.offset,
    {
        Location { line: Line { value: self.line.value - 1 }, offset: self.offset }
    }

    /// The same location one line later.
    pub fn inc_line(self) -> (r: Location<Offset, Line>)
        requires
            self.line.value < usize::MAX,
        ensures
            r.line.value == self.line.value + 1,
            r.offset == self.offset,
    {
        Location { line: Line { value: self.line.value + 1 }, offset: self.offset }
    }
}

impl<LineIndex> Location<Column, LineIndex> {
    /// The same location moved to the first column.
    pub fn zero_offset(self) -> (r: Location<Column, LineIndex>)
        ensures
            r.line == self.line,
            r.offset.value == 0,
    {
        Location { line: self.line, offset: Column { value: 0 } }
    }
}

/// Lexicographic order on byte locations: first by line, then by in-line
/// offset.
pub open spec fn loc_le(a: Location<Byte, Line>, b: Location<Byte, Line>) -> bool {
    a.line.value < b.line.value || (a.line.value == b.line.value && a.offset.value
        <= b.offset.value)
}

/// Whether `a` comes no later than `b` in lexicographic location order.
pub fn location_le(a: Location<Byte, Line>, b: Location<Byte, Line>) -> (r: bool)
    ensures
        r == loc_le(a, b),
{
    a.line.value < b.line.value || (a.line.value == b.line.value && a.offset.value
        <= b.offset.value)
}

/// The smaller of two byte offsets.
pub fn min_byte(a: Byte, b: Byte) -> (r: Byte)
    ensures
        r.value == if a.value <= b.value {
            a.value
        } else {
            b.value
        },
{
    if a.value <= b.value {
        a
    } else {
        b
    }
}

// =============
// === Range ===
// =============

/// A half-open range of text units.
#[derive(Clone, Copy, Debug, PartialEq, Eq, Structural)]
pub struct Range<T> {
    pub start: T,
    pub end: T,
}

impl<T> Range<T> {
    /// Constructor.
    pub fn new(start: T, end: T) -> (r: Range<T>)
        ensures
            r.start == start,
            r.end == end,
    {
        Range { start, end }
    }
}

impl Range<Byte> {
    /// The number of bytes the range covers.
    pub fn size(&self) -> (r: Byte)
        requires
            self.start.value <= self.end.value,
        ensures
            r.value == self.end.value - self.start.value,
    {
        Byte { value: self.end.value - self.start.value }
    }
}

} // verus!

//! The immutable text value and its coordinate conversions.
//!
//! [`Text`] wraps the persistent rope and exposes byte-exact operations:
//! substring, replacement, grapheme and code-point boundary queries, line
//! counting, and the conversions between byte offsets, line indices and
//! in-line locations, each in an exact (error-returning) and a snapped
//! (total) variant.

use vstd::prelude::*;
use vstd::string::StringSliceAdditionalSpecFns;

use crate::content::is_boundary;
use crate::content::last_line_of;
use crate::content::lemma_line_raw_end_bounds;
use crate::content::lemma_line_start;
use crate::content::lemma_next_newline;
use crate::content::lemma_offset_within_its_line;
use crate::content::line_end;
use crate::content::line_raw_end;
use crate::content::line_start;
use crate::content::newline_count;
use crate::rope::is_grapheme_boundary;
use crate::rope::rope_bytes;
use crate::rope::rope_byte_at;
use crate::rope::rope_clone;
use crate::rope::rope_common_prefix_and_suffix;
use crate::rope::rope_edit;
use crate::rope::rope_from_str;
use crate::rope::rope_len;
use crate::rope::rope_lines_vec;
use crate::rope::rope_line_of_offset;
use crate::rope::rope_measure_lines;
use crate::rope::rope_next_codepoint_offset;
use crate::rope::rope_next_grapheme_offset;
use crate::rope::rope_offset_of_line;
use crate::rope::rope_prev_codepoint_offset;
use crate::rope::rope_prev_grapheme_offset;
use crate::rope::rope_slice;
use crate::rope::rope_to_string;
use crate::unit::Byte;
use crate::unit::CodePointIndex;
use crate::unit::Line;
use crate::unit::Location;
use crate::unit::Range;

verus! {

/// A value clamped from above.
pub open spec fn clamped(v: int, hi: int) -> int {
    if v <= hi {
        v
    } else {
        hi
    }
}

/// The byte length of a line's content, without its terminator.
pub open spec fn line_len(s: Seq<u8>, l: int) -> int {
    line_end(s, l) - line_start(s, l)
}

/// The number of grapheme-cluster boundaries of `s` in `(0, k]`: the number
/// of grapheme clusters that end at or before `k`.
pub open spec fn grapheme_count_upto(s: Seq<u8>, k: int) -> nat
    decreases k,
{
    if k <= 0 {
        0
    } else {
        grapheme_count_upto(s, k - 1) + (if is_grapheme_boundary(s, k) {
            1nat
        } else {
            0nat
        })
    }
}

/// The grapheme count is stable over an interval without grapheme boundaries.
pub proof fn lemma_grapheme_count_stable(s: Seq<u8>, i: int, j: int)
    requires
        i <= j,
        forall|k: int| i < k <= j ==> !is_grapheme_boundary(s, k),
    ensures
        grapheme_count_upto(s, j) == grapheme_count_upto(s, i),
    decreases j - i,
{
    if i < j {
        lemma_grapheme_count_stable(s, i, j - 1);
    }
}

// ==============
// === Errors ===
// ==============

/// An index outside the valid range: below it, or above it.
#[derive(Clone, Copy, Debug, PartialEq, Eq, Structural)]
pub enum BoundsError {
    TooSmall,
    TooBig,
}

/// An invalid location in the text: out of bounds, a line too short for the
/// requested offset, or an offset that does not fall on a cluster boundary.
#[derive(Clone, Copy, Debug, PartialEq, Eq, Structural)]
pub enum LocationError<T> {
    BoundsError(BoundsError),
    LineTooShort(T),
    NotClusterBoundary(T),
}

// ============
// === Text ===
// ============

/// Efficient, immutable text container backed by a persistent rope. Most
/// operations are O(log n). Its mathematical value is the sequence of the
/// UTF-8 bytes it holds.
pub struct Text {
    pub rope: crate::rope::Rope,
}

impl View for Text {
    type V = Seq<u8>;

    open spec fn view(&self) -> Seq<u8> {
        rope_bytes(self.rope)
    }
}

impl Clone for Text {
    /// A clone holds the same bytes.
    fn clone(&self) -> (r: Text)
        ensures
            r@ == self@,
    {
        Text { rope: rope_clone(&self.rope) }
    }
}

// === Constructors and info ===

impl Text {
    /// An empty text.
    pub fn new() -> (r: Text)
        ensures
            r@ == Seq::<u8>::empty(),
    {
        let r = Text { rope: rope_from_str("") };
        proof {
            reveal_strlit("");
            assert(r@ =~= Seq::<u8>::empty());
        }
        r
    }

    /// A text holding the bytes of the given string.
    pub fn from_str(s: &str) -> (r: Text)
        ensures
            r@ == s.spec_bytes(),
    {
        Text { rope: rope_from_str(s) }
    }

    /// The whole text as a string.
    pub fn to_string(&self) -> (r: String)
        ensures
            r@ == vstd::utf8::decode_utf8(self@),
            vstd::utf8::encode_utf8(r@) == self@,
    {
        rope_to_string(&self.rope)
    }

    /// Check whether the text is empty.
    pub fn is_empty(&self) -> (r: bool)
        ensures
            r == (self@.len() == 0),
    {
        self.byte_size().value == 0
    }

    /// The length of the text in bytes.
    pub fn byte_size(&self) -> (r: Byte)
        ensures
            r.value == self@.len(),
    {
        Byte { value: rope_len(&self.rope) }
    }

    /// The full byte range of the text.
    pub fn byte_range(&self) -> (r: Range<Byte>)
        ensures
            r.start.value == 0,
            r.end.value == self@.len(),
    {
        Range { start: Byte { value: 0 }, end: self.byte_size() }
    }

    /// Constrain the provided byte range so that it is contained in the range
    /// of this text.
    pub fn crop_byte_range(&self, range: Range<Byte>) -> (r: Range<Byte>)
        ensures
            r.start.value == clamped(range.start.value as int, self@.len() as int),
            r.end.value == clamped(range.end.value as int, self@.len() as int),
    {
        let len = self.byte_size();
        Range {
            start: crate::unit::min_byte(range.start, len),
            end: crate::unit::min_byte(range.end, len),
        }
    }

    /// Return the text narrowed to the given range (cropped to the text's
    /// bounds first). The cropped range ends must lie on code-point
    /// boundaries.
    pub fn sub(&self, range: Range<Byte>) -> (r: Text)
        requires
            range.start.value <= range.end.value,
            is_boundary(self@, clamped(range.start.value as int, self@.len() as int)),
            is_boundary(self@, clamped(range.end.value as int, self@.len() as int)),
        ensures
            r@ == self@.subrange(
                clamped(range.start.value as int, self@.len() as int),
                clamped(range.end.value as int, self@.len() as int),
            ),
    {
        let range = self.crop_byte_range(range);
        Text { rope: rope_slice(&self.rope, range.start.value, range.end.value) }
    }

    /// Replace the given range (cropped to the text's bounds first) with the
    /// given text. The cropped range ends must lie on code-point boundaries.
    pub fn replace(&mut self, range: Range<Byte>, text: &Text)
        requires
            range.start.value <= range.end.value,
            is_boundary(old(self)@, clamped(range.start.value as int, old(self)@.len() as int)),
            is_boundary(old(self)@, clamped(range.end.value as int, old(self)@.len() as int)),
        ensures
            final(self)@ == old(self)@.subrange(
                0,
                clamped(range.start.value as int, old(self)@.len() as int),
            ) + text@ + old(self)@.subrange(
                clamped(range.end.value as int, old(self)@.len() as int),
                old(self)@.len() as int,
            ),
    {
        let range = self.crop_byte_range(range);
        rope_edit(&mut self.rope, range.start.value, range.end.value, &text.rope);
    }

    /// Apply the given change on the current text.
    pub fn apply_change(&mut self, change: &Change)
        requires
            change.range.start.value <= change.range.end.value,
            is_boundary(
                old(self)@,
                clamped(change.range.start.value as int, old(self)@.len() as int),
            ),
            is_boundary(
                old(self)@,
                clamped(change.range.end.value as int, old(self)@.len() as int),
            ),
        ensures
            final(self)@ == old(self)@.subrange(
                0,
                clamped(change.range.start.value as int, old(self)@.len() as int),
            ) + change.text@ + old(self)@.subrange(
                clamped(change.range.end.value as int, old(self)@.len() as int),
                old(self)@.len() as int,
            ),
    {
        self.replace(change.range, &change.text)
    }

    /// The number of grapheme clusters in this text.
    pub fn grapheme_count(&self) -> (r: usize)
        ensures
            r == grapheme_count_upto(self@, self@.len() as int),
    {
        let mut offset: usize = 0;
        let mut count: usize = 0;
        let len = rope_len(&self.rope);
        loop
            invariant
                offset <= len,
                len == self@.len(),
                count <= offset,
                count == grapheme_count_upto(self@, offset as int),
            ensures
                count == grapheme_count_upto(self@, self@.len() as int),
            decreases len - offset,
        {
            match rope_next_grapheme_offset(&self.rope, offset) {
                Some(off) => {
                    proof {
                        lemma_grapheme_count_stable(self@, offset as int, off - 1);
                    }
                    offset = off;
                    count = count + 1;
                },
                None => {
                    break ;
                },
            }
        }
        count
    }

    /// The offset of the next code-point boundary, taken from a code-point
    /// boundary, if any: the closest boundary strictly after the offset.
    pub fn next_codepoint_offset(&self, offset: Byte) -> (res: Option<Byte>)
        requires
            offset.value <= self@.len(),
            is_boundary(self@, offset.value as int),
        ensures
            res is None <==> offset.value == self@.len(),
            match res {
                Some(n) => offset.value < n.value <= self@.len() && is_boundary(
                    self@,
                    n.value as int,
                ) && forall|j: int| offset.value < j < n.value ==> !is_boundary(self@, j),
                None => true,
            },
    {
        match rope_next_codepoint_offset(&self.rope, offset.value) {
            Some(n) => Some(Byte { value: n }),
            None => None,
        }
    }

    /// The offset of the closest code-point boundary strictly before the
    /// offset, if any.
    pub fn prev_codepoint_offset(&self, offset: Byte) -> (res: Option<Byte>)
        requires
            offset.value <= self@.len(),
        ensures
            res is None <==> offset.value == 0,
            match res {
                Some(p) => p.value < offset.value && is_boundary(self@, p.value as int)
                    && forall|j: int| p.value < j < offset.value ==> !is_boundary(self@, j),
                None => true,
            },
    {
        match rope_prev_codepoint_offset(&self.rope, offset.value) {
            Some(p) => Some(Byte { value: p }),
            None => None,
        }
    }

    /// The offset of the next grapheme-cluster boundary, if any.
    pub fn next_grapheme_offset(&self, offset: Byte) -> (res: Option<Byte>)
        requires
            offset.value <= self@.len(),
        ensures
            res is None <==> offset.value == self@.len(),
            match res {
                Some(n) => offset.value < n.value <= self@.len() && is_boundary(
                    self@,
                    n.value as int,
                ) && is_grapheme_boundary(self@, n.value as int) && forall|j: int|
                    offset.value < j < n.value ==> !is_grapheme_boundary(self@, j),
                None => true,
            },
    {
        match rope_next_grapheme_offset(&self.rope, offset.value) {
            Some(n) => Some(Byte { value: n }),
            None => None,
        }
    }

    /// The offset of the previous grapheme-cluster boundary, if any.
    pub fn prev_grapheme_offset(&self, offset: Byte) -> (res: Option<Byte>)
        requires
            offset.value <= self@.len(),
        ensures
            res is None <==> offset.value == 0,
            match res {
                Some(p) => p.value < offset.value && is_boundary(self@, p.value as int)
                    && is_grapheme_boundary(self@, p.value as int) && forall|j: int|
                    p.value < j < offset.value ==> !is_grapheme_boundary(self@, j),
                None => true,
            },
    {
        match rope_prev_grapheme_offset(&self.rope, offset.value) {
            Some(p) => Some(Byte { value: p }),
            None => None,
        }
    }

    /// The lines covered by the given range, as strings, with `\n` and `\r\n`
    /// terminators stripped; the final terminator is optional. The range ends
    /// must lie on code-point boundaries.
    pub fn lines(&self, range: Range<Byte>) -> (r: Vec<String>)
        requires
            range.start.value <= range.end.value <= self@.len(),
            is_boundary(self@, range.start.value as int),
            is_boundary(self@, range.end.value as int),
        ensures
            ({
                let ls = crate::content::lines_of(
                    self@.subrange(range.start.value as int, range.end.value as int),
                );
                r@.len() == ls.len() && forall|i: int|
                    0 <= i < ls.len() ==> vstd::utf8::encode_utf8(#[trigger] r@[i]@) == ls[i]
            }),
    {
        rope_lines_vec(&self.rope, range.start.value, range.end.value)
    }
}

// === First line ===

impl Text {
    /// The first valid line index in this text.
    pub fn first_line_index(&self) -> (r: Line)
        ensures
            r.value == 0,
    {
        Line { value: 0 }
    }

    /// The first valid line byte offset in this text.
    pub fn first_line_byte_offset(&self) -> (r: Byte)
        ensures
            r.value == 0,
    {
        Byte { value: 0 }
    }

    /// The start column of the first line.
    pub fn first_line_start_column(&self) -> (r: CodePointIndex)
        ensures
            r.value == 0,
    {
        CodePointIndex { value: 0 }
    }

    /// The start location of the first line.
    pub fn first_line_start_location(&self) -> (r: Location<Byte, Line>)
        ensures
            r.line.value == 0,
            r.offset.value == 0,
    {
        Location { line: Line { value: 0 }, offset: Byte { value: 0 } }
    }
}

// === Last line ===

impl Text {
    /// The last valid line index in this text. If the text ends with a
    /// newline, there is an empty last line.
    pub fn last_line_index(&self) -> (r: Line)
        ensures
            r.value == last_line_of(self@),
    {
        Line { value: rope_measure_lines(&self.rope) }
    }

    /// The byte offset at which the last line starts.
    pub fn last_line_byte_offset(&self) -> (r: Byte)
        ensures
            r.value == line_start(self@, last_line_of(self@) as int),
            is_boundary(self@, r.value as int),
    {
        let last = self.last_line_index();
        self.byte_offset_of_line_index_unchecked(last)
    }

    /// The start column of the last line.
    pub fn last_line_start_column(&self) -> (r: CodePointIndex)
        ensures
            r.value == 0,
    {
        CodePointIndex { value: 0 }
    }

    /// The start location of the last line.
    pub fn last_line_start_location(&self) -> (r: Location<Byte, Line>)
        ensures
            r.line.value == last_line_of(self@),
            r.offset.value == 0,
    {
        Location { line: self.last_line_index(), offset: Byte { value: 0 } }
    }

    /// The in-line byte offset of the text's end within its last line.
    pub fn last_line_end_column_byte_offset(&self) -> (r: Byte)
        ensures
            r.value == self@.len() - line_start(self@, last_line_of(self@) as int),
    {
        proof {
            lemma_line_start(self@, last_line_of(self@) as int);
        }
        let len = self.byte_size();
        let start = self.last_line_byte_offset();
        Byte { value: len.value - start.value }
    }

    /// The byte offset of the end of the last line: the byte size of the
    /// whole text.
    pub fn last_line_end_byte_offset(&self) -> (r: Byte)
        ensures
            r.value == self@.len(),
    {
        self.byte_size()
    }

    /// The location of the text's end.
    pub fn last_line_end_location(&self) -> (r: Location<Byte, Line>)
        ensures
            r.line.value == last_line_of(self@),
            r.offset.value == self@.len() - line_start(self@, last_line_of(self@) as int),
    {
        Location { line: self.last_line_index(), offset: self.last_line_end_column_byte_offset() }
    }

    /// The location of the text's end: the last line, and the in-line offset
    /// of the text's last byte within it.
    pub fn location_of_text_end(&self) -> (r: Location<Byte, Line>)
        ensures
            r.line.value == last_line_of(self@),
            r.offset.value == self@.len() - line_start(self@, last_line_of(self@) as int),
    {
        self.last_line_end_location()
    }
}

// === Validation ===

impl Text {
    /// Check whether the provided line index is valid in this text.
    pub fn validate_line_index(&self, line: Line) -> (res: Result<Line, BoundsError>)
        ensures
            match res {
                Ok(l) => line.value <= last_line_of(self@) && l == line,
                Err(e) => line.value > last_line_of(self@) && e == BoundsError::TooBig,
            },
    {
        if line.value > rope_measure_lines(&self.rope) {
            Err(BoundsError::TooBig)
        } else {
            Ok(line)
        }
    }

    /// Check whether the provided byte offset is valid in this text.
    pub fn validate_byte_offset(&self, offset: Byte) -> (res: Result<Byte, BoundsError>)
        ensures
            match res {
                Ok(o) => offset.value <= self@.len() && o == offset,
                Err(e) => offset.value > self@.len() && e == BoundsError::TooBig,
            },
    {
        if offset.value > rope_len(&self.rope) {
            Err(BoundsError::TooBig)
        } else {
            Ok(offset)
        }
    }
}

// === Into byte offset ===

impl Text {
    /// The byte offset where the given line starts. Panic-free only for valid
    /// lines, hence the bound.
    pub fn byte_offset_of_line_index_unchecked(&self, line: Line) -> (r: Byte)
        requires
            line.value <= last_line_of(self@),
        ensures
            r.value == line_start(self@, line.value as int),
            is_boundary(self@, r.value as int),
    {
        Byte { value: rope_offset_of_line(&self.rope, line.value) }
    }

    /// The byte offset of the given line index.
    pub fn byte_offset_of_line_index(&self, line: Line) -> (res: Result<Byte, BoundsError>)
        ensures
            match res {
                Ok(b) => line.value <= last_line_of(self@) && b.value == line_start(
                    self@,
                    line.value as int,
                ) && is_boundary(self@, b.value as int),
                Err(e) => line.value > last_line_of(self@) && e == BoundsError::TooBig,
            },
    {
        match self.validate_line_index(line) {
            Ok(line) => {
                proof {
                    lemma_line_start(self@, line.value as int);
                }
                Ok(self.byte_offset_of_line_index_unchecked(line))
            },
            Err(e) => Err(e),
        }
    }

    /// The byte offset of the given line, snapped to the closest valid one.
    pub fn byte_offset_of_line_index_snapped(&self, line: Line) -> (r: Byte)
        ensures
            r.value == line_start(
                self@,
                clamped(line.value as int, last_line_of(self@) as int),
            ),
            is_boundary(self@, r.value as int),
    {
        match self.byte_offset_of_line_index(line) {
            Ok(offset) => offset,
            Err(_) => self.last_line_byte_offset(),
        }
    }

    /// The end byte offset of the given line, snapped to the closest valid
    /// value: the text's end for a line beyond the last one.
    pub fn end_byte_offset_of_line_index_snapped(&self, line: Line) -> (r: Byte)
        ensures
            line.value <= last_line_of(self@) ==> r.value == line_end(self@, line.value as int),
            line.value > last_line_of(self@) ==> r.value == self@.len(),
            is_boundary(self@, r.value as int),
    {
        proof {
            if line.value <= last_line_of(self@) {
                crate::content::lemma_line_end_is_boundary(self@, line.value as int);
            }
        }
        proof {
            if line.value <= last_line_of(self@) {
                lemma_line_raw_end_bounds(self@, line.value as int);
            }
        }
        self.snap_bytes_bounds_result(self.end_byte_offset_of_line_index(line))
    }

    /// The byte offset just after the last content byte of the given line
    /// (before its terminator), if the line exists.
    pub fn end_byte_offset_of_line_index(&self, line: Line) -> (res: Result<Byte, BoundsError>)
        ensures
            match res {
                Ok(b) => line.value <= last_line_of(self@) && b.value == line_end(
                    self@,
                    line.value as int,
                ),
                Err(e) => line.value > last_line_of(self@) && e == BoundsError::TooBig,
            },
    {
        let ghost s = self@;
        let last = self.last_line_index();
        if line.value > last.value {
            return Err(BoundsError::TooBig);
        }
        proof {
            lemma_line_start(s, line.value as int);
            lemma_next_newline(s, line_start(s, line.value as int));
        }
        if line.value == last.value {
            // The last line's raw end is the text's length, and there is no
            // terminator to strip.
            proof {
                crate::content::lemma_last_line_raw_end(s);
            }
            Ok(self.byte_size())
        } else {
            // The next line's start is just after this line's newline.
            proof {
                lemma_line_start(s, line.value as int + 1);
            }
            let next_start = rope_offset_of_line(&self.rope, line.value + 1);
            let nn = next_start - 1;
            let start = rope_offset_of_line(&self.rope, line.value);
            proof {
                assert(line_raw_end(s, line.value as int) == nn);
            }
            if nn > start && rope_byte_at(&self.rope, nn - 1) == 13u8 {
                Ok(Byte { value: nn - 1 })
            } else {
                Ok(Byte { value: nn })
            }
        }
    }

    /// The byte length of the given line's content, without its terminator.
    pub fn line_byte_length(&self, line: Line) -> (r: Byte)
        requires
            line.value <= last_line_of(self@),
        ensures
            r.value == line_len(self@, line.value as int),
    {
        proof {
            lemma_line_raw_end_bounds(self@, line.value as int);
        }
        let line_start = self.byte_offset_of_line_index_unchecked(line);
        let line_end = match self.end_byte_offset_of_line_index(line) {
            Ok(e) => e,
            Err(_) => Byte { value: 0 },
        };
        Byte { value: line_end.value - line_start.value }
    }

    /// The absolute byte offset of the given location: the line's start plus
    /// the in-line offset. An in-line offset beyond the line's content
    /// length is rejected as a too-short line; the error carries the line's
    /// content end, the closest valid offset.
    pub fn byte_offset_of_location(&self, location: Location<Byte, Line>) -> (res: Result<
        Byte,
        LocationError<Byte>,
    >)
        ensures
            match res {
                Ok(b) => location.line.value <= last_line_of(self@) && location.offset.value
                    <= line_len(self@, location.line.value as int) && b.value == line_start(
                    self@,
                    location.line.value as int,
                ) + location.offset.value,
                Err(LocationError::BoundsError(e)) => location.line.value > last_line_of(self@)
                    && e == BoundsError::TooBig,
                Err(LocationError::LineTooShort(end)) => location.line.value <= last_line_of(
                    self@,
                ) && location.offset.value > line_len(self@, location.line.value as int)
                    && end.value == line_end(self@, location.line.value as int),
                Err(LocationError::NotClusterBoundary(_)) => false,
            },
    {
        match self.byte_offset_of_line_index(location.line) {
            Ok(line_offset) => {
                let text_len = self.byte_size();
                proof {
                    lemma_line_start(self@, location.line.value as int);
                    lemma_line_raw_end_bounds(self@, location.line.value as int);
                    assert(line_end(self@, location.line.value as int) <= text_len.value);
                }
                let llen = self.line_byte_length(location.line);
                if location.offset.value > llen.value {
                    Err(LocationError::LineTooShort(
                        Byte { value: line_offset.value + llen.value },
                    ))
                } else {
                    Ok(Byte { value: line_offset.value + location.offset.value })
                }
            },
            Err(e) => Err(LocationError::BoundsError(e)),
        }
    }

    /// The absolute byte offset of the given location, snapped to the closest
    /// valid value: the exact conversion's result where it succeeds, the
    /// line's content end for a too-short line, and the text's end for a
    /// line beyond the last.
    pub fn byte_offset_of_location_snapped(&self, location: Location<Byte, Line>) -> (r: Byte)
        ensures
            location.line.value <= last_line_of(self@) ==> r.value == line_start(
                self@,
                location.line.value as int,
            ) + clamped(location.offset.value as int, line_len(self@, location.line.value as int)),
            location.line.value > last_line_of(self@) ==> r.value == self@.len(),
    {
        proof {
            if location.line.value <= last_line_of(self@) {
                lemma_line_raw_end_bounds(self@, location.line.value as int);
            }
        }
        self.snap_bytes_location_result(self.byte_offset_of_location(location))
    }

    /// The byte range of the given line's content.
    pub fn byte_range_of_line_index(&self, line: Line) -> (res: Result<Range<Byte>, BoundsError>)
        ensures
            match res {
                Ok(r) => line.value <= last_line_of(self@) && r.start.value == line_start(
                    self@,
                    line.value as int,
                ) && r.end.value == line_end(self@, line.value as int),
                Err(e) => line.value > last_line_of(self@) && e == BoundsError::TooBig,
            },
    {
        match self.byte_offset_of_line_index(line) {
            Ok(start) => match self.end_byte_offset_of_line_index(line) {
                Ok(end) => Ok(Range { start, end }),
                Err(e) => Err(e),
            },
            Err(e) => Err(e),
        }
    }

    /// The byte range of the given line, snapped to the closest valid value.
    pub fn byte_range_of_line_index_snapped(&self, line: Line) -> (r: Range<Byte>)
        ensures
            r.start.value == line_start(
                self@,
                clamped(line.value as int, last_line_of(self@) as int),
            ),
            line.value <= last_line_of(self@) ==> r.end.value == line_end(
                self@,
                line.value as int,
            ),
            line.value > last_line_of(self@) ==> r.end.value == self@.len(),
    {
        let start = self.byte_offset_of_line_index_snapped(line);
        let end = self.end_byte_offset_of_line_index_snapped(line);
        Range { start, end }
    }
}

// === Into line index ===

impl Text {
    /// The line of a given byte offset. Panic-free only for valid offsets on
    /// code-point boundaries, hence the bounds.
    pub fn line_index_of_byte_offset_unchecked(&self, offset: Byte) -> (r: Line)
        requires
            offset.value <= self@.len(),
            is_boundary(self@, offset.value as int),
        ensures
            r.value == newline_count(self@, offset.value as int),
    {
        Line { value: rope_line_of_offset(&self.rope, offset.value) }
    }

    /// The line index of the given byte offset, which must lie on a
    /// code-point boundary when it is within the text.
    pub fn line_index_of_byte_offset(&self, offset: Byte) -> (res: Result<Line, BoundsError>)
        requires
            offset.value <= self@.len() ==> is_boundary(self@, offset.value as int),
        ensures
            match res {
                Ok(l) => offset.value <= self@.len() && l.value == newline_count(
                    self@,
                    offset.value as int,
                ),
                Err(e) => offset.value > self@.len() && e == BoundsError::TooBig,
            },
    {
        match self.validate_byte_offset(offset) {
            Ok(offset) => Ok(self.line_index_of_byte_offset_unchecked(offset)),
            Err(e) => Err(e),
        }
    }

    /// The line index of the given byte offset, snapped to the closest valid
    /// line index, and onto a code-point boundary first.
    pub fn line_index_of_byte_offset_snapped(&self, offset: Byte) -> (r: Line)
        ensures
            r.value == newline_count(
                self@,
                crate::content::snap_left(self@, clamped(offset.value as int, self@.len() as int)),
            ),
            is_boundary(self@, clamped(offset.value as int, self@.len() as int)) ==> r.value
                == newline_count(self@, clamped(offset.value as int, self@.len() as int)),
    {
        let len = self.byte_size();
        let clamped_off = if offset.value <= len.value {
            offset
        } else {
            len
        };
        proof {
            if is_boundary(self@, clamped_off.value as int) {
                crate::content::lemma_snap_left_of_boundary(self@, clamped_off.value as int);
            }
        }
        let snapped = self.snap_offset_to_boundary(clamped_off);
        self.line_index_of_byte_offset_unchecked(snapped)
    }

    /// The in-line byte offset of the given absolute byte offset within its
    /// line. The offset must lie on a code-point boundary when it is within
    /// the text.
    pub fn line_byte_offset_of_byte_offset(&self, tgt_offset: Byte) -> (res: Result<
        Byte,
        LocationError<CodePointIndex>,
    >)
        requires
            tgt_offset.value <= self@.len() ==> is_boundary(self@, tgt_offset.value as int),
        ensures
            match res {
                Ok(b) => tgt_offset.value <= self@.len() && b.value == tgt_offset.value
                    - line_start(self@, newline_count(self@, tgt_offset.value as int) as int),
                Err(e) => tgt_offset.value > self@.len() && e
                    == LocationError::<CodePointIndex>::BoundsError(BoundsError::TooBig),
            },
    {
        if tgt_offset.value > rope_len(&self.rope) {
            return Err(LocationError::BoundsError(BoundsError::TooBig));
        }
        proof {
            lemma_offset_within_its_line(self@, tgt_offset.value as int);
        }
        let line = self.line_index_of_byte_offset_unchecked(tgt_offset);
        let line_offset = self.byte_offset_of_line_index_unchecked(line);
        Ok(Byte { value: tgt_offset.value - line_offset.value })
    }
}

// === Into location ===

impl Text {
    /// The location of the provided byte offset: its line, and its in-line
    /// offset within that line. The offset must lie on a code-point boundary
    /// when it is within the text.
    pub fn location_of_byte_offset(&self, offset: Byte) -> (res: Result<
        Location<Byte, Line>,
        BoundsError,
    >)
        requires
            offset.value <= self@.len() ==> is_boundary(self@, offset.value as int),
        ensures
            match res {
                Ok(loc) => offset.value <= self@.len() && loc.line.value == newline_count(
                    self@,
                    offset.value as int,
                ) && loc.offset.value == offset.value - line_start(
                    self@,
                    newline_count(self@, offset.value as int) as int,
                ),
                Err(e) => offset.value > self@.len() && e == BoundsError::TooBig,
            },
    {
        if offset.value > rope_len(&self.rope) {
            return Err(BoundsError::TooBig);
        }
        proof {
            lemma_offset_within_its_line(self@, offset.value as int);
        }
        let line = self.line_index_of_byte_offset_unchecked(offset);
        let line_offset = self.byte_offset_of_line_index_unchecked(line);
        Ok(Location { line, offset: Byte { value: offset.value - line_offset.value } })
    }

    /// The location of the provided byte offset, snapped to the closest valid
    /// value, and onto a code-point boundary first.
    pub fn location_of_byte_offset_snapped(&self, offset: Byte) -> (r: Location<Byte, Line>)
        ensures
            ({
                let off = crate::content::snap_left(
                    self@,
                    clamped(offset.value as int, self@.len() as int),
                );
                let line = newline_count(self@, off) as int;
                r.line.value == line && r.offset.value == off - line_start(self@, line)
            }),
            is_boundary(self@, clamped(offset.value as int, self@.len() as int)) ==> ({
                let off = clamped(offset.value as int, self@.len() as int);
                let line = newline_count(self@, off) as int;
                r.line.value == line && r.offset.value == off - line_start(self@, line)
            }),
    {
        let len = self.byte_size();
        let clamped_off = if offset.value <= len.value {
            offset
        } else {
            len
        };
        proof {
            if is_boundary(self@, clamped_off.value as int) {
                crate::content::lemma_snap_left_of_boundary(self@, clamped_off.value as int);
            }
        }
        let snapped = self.snap_offset_to_boundary(clamped_off);
        match self.location_of_byte_offset(snapped) {
            Ok(location) => location,
            Err(_) => vstd::pervasive::unreached(),
        }
    }

    /// Constrain the provided location so that it is valid in this text: a
    /// line beyond the last snaps to the text's end, and an in-line offset
    /// beyond the line's content length is clamped to it.
    pub fn snap_location(&self, location: Location<Byte, Line>) -> (r: Location<Byte, Line>)
        ensures
            location.line.value <= last_line_of(self@) ==> r.line == location.line
                && r.offset.value == clamped(
                location.offset.value as int,
                line_len(self@, location.line.value as int),
            ),
            location.line.value > last_line_of(self@) ==> r.line.value == last_line_of(self@)
                && r.offset.value == self@.len() - line_start(self@, last_line_of(self@) as int),
            (r.line.value as int, r.offset.value as int) == snapped_location_spec(
                self@,
                location.line.value as int,
                location.offset.value as int,
            ),
    {
        let last = self.last_line_index();
        if location.line.value > last.value {
            self.last_line_end_location()
        } else {
            let llen = self.line_byte_length(location.line);
            let off = if location.offset.value <= llen.value {
                location.offset.value
            } else {
                llen.value
            };
            Location { line: location.line, offset: Byte { value: off } }
        }
    }
}

// === Snapping of errors ===

impl Text {
    /// Snap a location error to the closest valid byte offset.
    pub fn snap_bytes_location_error(&self, err: LocationError<Byte>) -> (r: Byte)
        ensures
            r.value == match err {
                LocationError::BoundsError(BoundsError::TooSmall) => 0int,
                LocationError::BoundsError(BoundsError::TooBig) => self@.len() as int,
                LocationError::LineTooShort(offset) => offset.value as int,
                LocationError::NotClusterBoundary(offset) => offset.value as int,
            },
    {
        match err {
            LocationError::BoundsError(BoundsError::TooSmall) => Byte { value: 0 },
            LocationError::BoundsError(BoundsError::TooBig) => self.last_line_end_byte_offset(),
            LocationError::LineTooShort(offset) => offset,
            LocationError::NotClusterBoundary(offset) => offset,
        }
    }

    /// Snap a bounds error to the closest valid byte offset.
    pub fn snap_bytes_bounds_error(&self, err: BoundsError) -> (r: Byte)
        ensures
            r.value == match err {
                BoundsError::TooSmall => 0int,
                BoundsError::TooBig => self@.len() as int,
            },
    {
        match err {
            BoundsError::TooSmall => Byte { value: 0 },
            BoundsError::TooBig => self.last_line_end_byte_offset(),
        }
    }

    /// Snap a byte-offset result with a location error to the closest valid
    /// byte offset.
    pub fn snap_bytes_location_result(&self, result: Result<Byte, LocationError<Byte>>) -> (r:
        Byte)
        ensures
            r.value == match result {
                Ok(offset) => offset.value as int,
                Err(LocationError::BoundsError(BoundsError::TooSmall)) => 0int,
                Err(LocationError::BoundsError(BoundsError::TooBig)) => self@.len() as int,
                Err(LocationError::LineTooShort(offset)) => offset.value as int,
                Err(LocationError::NotClusterBoundary(offset)) => offset.value as int,
            },
    {
        match result {
            Ok(bytes) => bytes,
            Err(err) => self.snap_bytes_location_error(err),
        }
    }

    /// Snap a byte-offset result with a bounds error to the closest valid
    /// byte offset.
    pub fn snap_bytes_bounds_result(&self, result: Result<Byte, BoundsError>) -> (r: Byte)
        ensures
            r.value == match result {
                Ok(offset) => offset.value as int,
                Err(BoundsError::TooSmall) => 0int,
                Err(BoundsError::TooBig) => self@.len() as int,
            },
    {
        match result {
            Ok(bytes) => bytes,
            Err(err) => self.snap_bytes_bounds_error(err),
        }
    }
}

// === Common prefix and suffix ===

/// The byte lengths of a common prefix and a common suffix of two texts. The
/// two parts do not overlap: their sum does not exceed the length of either
/// text.
#[derive(Clone, Copy, Debug, PartialEq, Eq, Structural)]
pub struct CommonPrefixAndSuffix {
    pub prefix: Byte,
    pub suffix: Byte,
}

impl Text {
    /// The lengths of a common prefix and a non-overlapping common suffix of
    /// this text and another.
    pub fn common_prefix_and_suffix(&self, other: &Text) -> (r: CommonPrefixAndSuffix)
        ensures
            r.prefix.value + r.suffix.value <= self@.len(),
            r.prefix.value + r.suffix.value <= other@.len(),
            self@.subrange(0, r.prefix.value as int) == other@.subrange(0, r.prefix.value as int),
            self@.subrange(self@.len() - r.suffix.value, self@.len() as int) == other@.subrange(
                other@.len() - r.suffix.value,
                other@.len() as int,
            ),
    {
        let (prefix, suffix) = rope_common_prefix_and_suffix(&self.rope, &other.rope);
        CommonPrefixAndSuffix { prefix: Byte { value: prefix }, suffix: Byte { value: suffix } }
    }
}

// ==============
// === Change ===
// ==============

/// A single change done to a text: a byte range to replace, and the text that
/// replaces it.
pub struct Change {
    /// Range of old text being replaced.
    pub range: Range<Byte>,
    /// The text inserted in place of `range`.
    pub text: Text,
}

impl Clone for Change {
    /// A clone holds the same range and the same bytes.
    fn clone(&self) -> (r: Change)
        ensures
            r.range == self.range,
            r.text@ == self.text@,
    {
        Change { range: self.range, text: self.text.clone() }
    }
}

impl Change {
    /// A change inserting `text` at `offset`, removing nothing.
    pub fn inserted(offset: Byte, text: Text) -> (r: Change)
        ensures
            r.range.start == offset,
            r.range.end == offset,
            r.text == text,
    {
        Change { range: Range { start: offset, end: offset }, text }
    }

    /// A new string: the target with this change applied. The range must be
    /// valid in the target and lie on code-point boundaries.
    pub fn applied(&self, target: &str) -> (res: Result<String, BoundsError>)
        requires
            self.range.start.value <= self.range.end.value,
            self.range.end.value <= target.spec_bytes().len(),
            is_boundary(target.spec_bytes(), self.range.start.value as int),
            is_boundary(target.spec_bytes(), self.range.end.value as int),
        ensures
            match res {
                Ok(s) => vstd::utf8::encode_utf8(s@) == target.spec_bytes().subrange(
                    0,
                    self.range.start.value as int,
                ) + self.text@ + target.spec_bytes().subrange(
                    self.range.end.value as int,
                    target.spec_bytes().len() as int,
                ),
                Err(_) => false,
            },
    {
        let mut t = Text::from_str(target);
        t.replace(self.range, &self.text);
        Ok(t.to_string())
    }

    /// Apply the change on the given string in place. The range must be valid
    /// in the target and lie on code-point boundaries.
    pub fn apply(&self, target: &mut String) -> (res: Result<(), BoundsError>)
        requires
            self.range.start.value <= self.range.end.value,
            self.range.end.value <= vstd::utf8::encode_utf8(old(target)@).len(),
            is_boundary(vstd::utf8::encode_utf8(old(target)@), self.range.start.value as int),
            is_boundary(vstd::utf8::encode_utf8(old(target)@), self.range.end.value as int),
        ensures
            res is Ok,
            vstd::utf8::encode_utf8(final(target)@) == vstd::utf8::encode_utf8(
                old(target)@,
            ).subrange(0, self.range.start.value as int) + self.text@ + vstd::utf8::encode_utf8(
                old(target)@,
            ).subrange(
                self.range.end.value as int,
                vstd::utf8::encode_utf8(old(target)@).len() as int,
            ),
    {
        let mut t = Text::from_str(target.as_str());
        t.replace(self.range, &self.text);
        *target = t.to_string();
        Ok(())
    }
}


// ================
// === TextCell ===
// ================

/// A mutable holder of a [`Text`]. It mirrors the text's operations; the
/// mutating ones take the cell exclusively.
pub struct TextCell {
    cell: Text,
}

impl View for TextCell {
    type V = Seq<u8>;

    closed spec fn view(&self) -> Seq<u8> {
        self.cell@
    }
}

impl TextCell {
    /// An empty cell.
    pub fn new() -> (r: TextCell)
        ensures
            r@ == Seq::<u8>::empty(),
    {
        TextCell { cell: Text::new() }
    }

    /// The current value of the cell.
    pub fn get(&self) -> (r: Text)
        ensures
            r@ == self@,
    {
        self.cell.clone()
    }

    /// Set the value of the cell.
    pub fn set(&mut self, new_text: Text)
        ensures
            final(self)@ == new_text@,
    {
        self.cell = new_text;
    }

    /// All lines in the provided range as strings, with at least one (empty)
    /// line even when the range holds no content. The range ends must lie on
    /// code-point boundaries.
    pub fn lines_vec(&self, range: Range<Byte>) -> (r: Vec<String>)
        requires
            range.start.value <= range.end.value <= self@.len(),
            is_boundary(self@, range.start.value as int),
            is_boundary(self@, range.end.value as int),
        ensures
            ({
                let ls = crate::content::lines_of(
                    self@.subrange(range.start.value as int, range.end.value as int),
                );
                if ls.len() == 0 {
                    r@.len() == 1 && r@[0]@ == Seq::<char>::empty()
                } else {
                    r@.len() == ls.len() && forall|i: int|
                        0 <= i < ls.len() ==> vstd::utf8::encode_utf8(#[trigger] r@[i]@) == ls[i]
                }
            }),
    {
        let mut lines = self.cell.lines(range);
        if lines.len() == 0 {
            lines.push(String::new());
        }
        lines
    }

    /// Check whether the text is empty.
    pub fn is_empty(&self) -> (r: bool)
        ensures
            r == (self@.len() == 0),
    {
        self.cell.is_empty()
    }

    /// The text narrowed to the given range; see [`Text::sub`].
    pub fn sub(&self, range: Range<Byte>) -> (r: Text)
        requires
            range.start.value <= range.end.value,
            is_boundary(self@, clamped(range.start.value as int, self@.len() as int)),
            is_boundary(self@, clamped(range.end.value as int, self@.len() as int)),
        ensures
            r@ == self@.subrange(
                clamped(range.start.value as int, self@.len() as int),
                clamped(range.end.value as int, self@.len() as int),
            ),
    {
        self.cell.sub(range)
    }

    /// The number of grapheme clusters in the text.
    pub fn grapheme_count(&self) -> (r: usize)
        ensures
            r == grapheme_count_upto(self@, self@.len() as int),
    {
        self.cell.grapheme_count()
    }

    /// The length of the text in bytes.
    pub fn byte_size(&self) -> (r: Byte)
        ensures
            r.value == self@.len(),
    {
        self.cell.byte_size()
    }

    /// The full byte range of the text.
    pub fn byte_range(&self) -> (r: Range<Byte>)
        ensures
            r.start.value == 0,
            r.end.value == self@.len(),
    {
        self.cell.byte_range()
    }

    /// Constrain a byte range to this text's bounds.
    pub fn crop_byte_range(&self, range: Range<Byte>) -> (r: Range<Byte>)
        ensures
            r.start.value == clamped(range.start.value as int, self@.len() as int),
            r.end.value == clamped(range.end.value as int, self@.len() as int),
    {
        self.cell.crop_byte_range(range)
    }

    /// Constrain a location to this text's bounds; see [`Text::snap_location`].
    pub fn snap_location(&self, location: Location<Byte, Line>) -> (r: Location<Byte, Line>)
        ensures
            location.line.value <= last_line_of(self@) ==> r.line == location.line
                && r.offset.value == clamped(
                location.offset.value as int,
                line_len(self@, location.line.value as int),
            ),
            location.line.value > last_line_of(self@) ==> r.line.value == last_line_of(self@)
                && r.offset.value == self@.len() - line_start(self@, last_line_of(self@) as int),
            (r.line.value as int, r.offset.value as int) == snapped_location_spec(
                self@,
                location.line.value as int,
                location.offset.value as int,
            ),
    {
        self.cell.snap_location(location)
    }

    /// The offset of the next grapheme-cluster boundary, if any.
    pub fn next_grapheme_offset(&self, offset: Byte) -> (res: Option<Byte>)
        requires
            offset.value <= self@.len(),
        ensures
            res is None <==> offset.value == self@.len(),
            match res {
                Some(n) => offset.value < n.value <= self@.len() && is_boundary(
                    self@,
                    n.value as int,
                ) && is_grapheme_boundary(self@, n.value as int),
                None => true,
            },
    {
        self.cell.next_grapheme_offset(offset)
    }

    /// The offset of the previous grapheme-cluster boundary, if any.
    pub fn prev_grapheme_offset(&self, offset: Byte) -> (res: Option<Byte>)
        requires
            offset.value <= self@.len(),
        ensures
            res is None <==> offset.value == 0,
            match res {
                Some(p) => p.value < offset.value && is_boundary(self@, p.value as int)
                    && is_grapheme_boundary(self@, p.value as int),
                None => true,
            },
    {
        self.cell.prev_grapheme_offset(offset)
    }

    /// Replace a byte range with the given text; see [`Text::replace`].
    pub fn replace(&mut self, range: Range<Byte>, text: &Text)
        requires
            range.start.value <= range.end.value,
            is_boundary(old(self)@, clamped(range.start.value as int, old(self)@.len() as int)),
            is_boundary(old(self)@, clamped(range.end.value as int, old(self)@.len() as int)),
        ensures
            final(self)@ == old(self)@.subrange(
                0,
                clamped(range.start.value as int, old(self)@.len() as int),
            ) + text@ + old(self)@.subrange(
                clamped(range.end.value as int, old(self)@.len() as int),
                old(self)@.len() as int,
            ),
    {
        self.cell.replace(range, text)
    }

    /// The first valid line index.
    pub fn first_line_index(&self) -> (r: Line)
        ensures
            r.value == 0,
    {
        self.cell.first_line_index()
    }

    /// The first valid line byte offset.
    pub fn first_line_byte_offset(&self) -> (r: Byte)
        ensures
            r.value == 0,
    {
        self.cell.first_line_byte_offset()
    }

    /// The start column of the first line.
    pub fn first_line_start_column(&self) -> (r: CodePointIndex)
        ensures
            r.value == 0,
    {
        self.cell.first_line_start_column()
    }

    /// The start location of the first line.
    pub fn first_line_start_location(&self) -> (r: Location<Byte, Line>)
        ensures
            r.line.value == 0,
            r.offset.value == 0,
    {
        self.cell.first_line_start_location()
    }

    /// The last valid line index.
    pub fn last_line_index(&self) -> (r: Line)
        ensures
            r.value == last_line_of(self@),
    {
        self.cell.last_line_index()
    }

    /// The byte offset at which the last line starts.
    pub fn last_line_byte_offset(&self) -> (r: Byte)
        ensures
            r.value == line_start(self@, last_line_of(self@) as int),
    {
        self.cell.last_line_byte_offset()
    }

    /// The start column of the last line.
    pub fn last_line_start_column(&self) -> (r: CodePointIndex)
        ensures
            r.value == 0,
    {
        self.cell.last_line_start_column()
    }

    /// The start location of the last line.
    pub fn last_line_start_location(&self) -> (r: Location<Byte, Line>)
        ensures
            r.line.value == last_line_of(self@),
            r.offset.value == 0,
    {
        self.cell.last_line_start_location()
    }

    /// The byte offset of the end of the last line.
    pub fn last_line_end_byte_offset(&self) -> (r: Byte)
        ensures
            r.value == self@.len(),
    {
        self.cell.last_line_end_byte_offset()
    }

    /// The location of the text's end.
    pub fn last_line_end_location(&self) -> (r: Location<Byte, Line>)
        ensures
            r.line.value == last_line_of(self@),
            r.offset.value == self@.len() - line_start(self@, last_line_of(self@) as int),
    {
        self.cell.last_line_end_location()
    }

    /// Check whether the provided line index is valid.
    pub fn validate_line_index(&self, line: Line) -> (res: Result<Line, BoundsError>)
        ensures
            match res {
                Ok(l) => line.value <= last_line_of(self@) && l == line,
                Err(e) => line.value > last_line_of(self@) && e == BoundsError::TooBig,
            },
    {
        self.cell.validate_line_index(line)
    }

    /// Check whether the provided byte offset is valid.
    pub fn validate_byte_offset(&self, offset: Byte) -> (res: Result<Byte, BoundsError>)
        ensures
            match res {
                Ok(o) => offset.value <= self@.len() && o == offset,
                Err(e) => offset.value > self@.len() && e == BoundsError::TooBig,
            },
    {
        self.cell.validate_byte_offset(offset)
    }

    /// The end byte offset of the given line's content.
    pub fn end_byte_offset_of_line_index(&self, line: Line) -> (res: Result<Byte, BoundsError>)
        ensures
            match res {
                Ok(b) => line.value <= last_line_of(self@) && b.value == line_end(
                    self@,
                    line.value as int,
                ),
                Err(e) => line.value > last_line_of(self@) && e == BoundsError::TooBig,
            },
    {
        self.cell.end_byte_offset_of_line_index(line)
    }

    /// The byte length of the given line's content.
    pub fn line_byte_length(&self, line: Line) -> (r: Byte)
        requires
            line.value <= last_line_of(self@),
        ensures
            r.value == line_len(self@, line.value as int),
    {
        self.cell.line_byte_length(line)
    }

    /// The end byte offset of the given line, snapped to a valid value.
    pub fn end_byte_offset_of_line_index_snapped(&self, line: Line) -> (r: Byte)
        ensures
            line.value <= last_line_of(self@) ==> r.value == line_end(self@, line.value as int),
            line.value > last_line_of(self@) ==> r.value == self@.len(),
    {
        self.cell.end_byte_offset_of_line_index_snapped(line)
    }

    /// The byte offset where the given (valid) line starts.
    pub fn byte_offset_of_line_index_unchecked(&self, line: Line) -> (r: Byte)
        requires
            line.value <= last_line_of(self@),
        ensures
            r.value == line_start(self@, line.value as int),
    {
        self.cell.byte_offset_of_line_index_unchecked(line)
    }

    /// The byte offset of the given line index.
    pub fn byte_offset_of_line_index(&self, line: Line) -> (res: Result<Byte, BoundsError>)
        ensures
            match res {
                Ok(b) => line.value <= last_line_of(self@) && b.value == line_start(
                    self@,
                    line.value as int,
                ),
                Err(e) => line.value > last_line_of(self@) && e == BoundsError::TooBig,
            },
    {
        self.cell.byte_offset_of_line_index(line)
    }

    /// The byte offset of the given line, snapped to a valid value.
    pub fn byte_offset_of_line_index_snapped(&self, line: Line) -> (r: Byte)
        ensures
            r.value == line_start(
                self@,
                clamped(line.value as int, last_line_of(self@) as int),
            ),
    {
        self.cell.byte_offset_of_line_index_snapped(line)
    }

    /// The absolute byte offset of the given location; see
    /// [`Text::byte_offset_of_location`].
    pub fn byte_offset_of_location(&self, location: Location<Byte, Line>) -> (res: Result<
        Byte,
        LocationError<Byte>,
    >)
        ensures
            match res {
                Ok(b) => location.line.value <= last_line_of(self@) && location.offset.value
                    <= line_len(self@, location.line.value as int) && b.value == line_start(
                    self@,
                    location.line.value as int,
                ) + location.offset.value,
                Err(LocationError::BoundsError(e)) => location.line.value > last_line_of(self@)
                    && e == BoundsError::TooBig,
                Err(LocationError::LineTooShort(end)) => location.line.value <= last_line_of(
                    self@,
                ) && location.offset.value > line_len(self@, location.line.value as int)
                    && end.value == line_end(self@, location.line.value as int),
                Err(LocationError::NotClusterBoundary(_)) => false,
            },
    {
        self.cell.byte_offset_of_location(location)
    }

    /// The absolute byte offset of the given location, snapped to a valid
    /// value.
    pub fn byte_offset_of_location_snapped(&self, location: Location<Byte, Line>) -> (r: Byte)
        ensures
            location.line.value <= last_line_of(self@) ==> r.value == line_start(
                self@,
                location.line.value as int,
            ) + clamped(location.offset.value as int, line_len(self@, location.line.value as int)),
            location.line.value > last_line_of(self@) ==> r.value == self@.len(),
    {
        self.cell.byte_offset_of_location_snapped(location)
    }

    /// The byte range of the given line's content.
    pub fn byte_range_of_line_index(&self, line: Line) -> (res: Result<Range<Byte>, BoundsError>)
        ensures
            match res {
                Ok(r) => line.value <= last_line_of(self@) && r.start.value == line_start(
                    self@,
                    line.value as int,
                ) && r.end.value == line_end(self@, line.value as int),
                Err(e) => line.value > last_line_of(self@) && e == BoundsError::TooBig,
            },
    {
        self.cell.byte_range_of_line_index(line)
    }

    /// The byte range of the given line, snapped to a valid value.
    pub fn byte_range_of_line_index_snapped(&self, line: Line) -> (r: Range<Byte>)
        ensures
            r.start.value == line_start(
                self@,
                clamped(line.value as int, last_line_of(self@) as int),
            ),
            line.value <= last_line_of(self@) ==> r.end.value == line_end(
                self@,
                line.value as int,
            ),
            line.value > last_line_of(self@) ==> r.end.value == self@.len(),
    {
        self.cell.byte_range_of_line_index_snapped(line)
    }

    /// The line of a given (valid) byte offset on a code-point boundary.
    pub fn line_index_of_byte_offset_unchecked(&self, offset: Byte) -> (r: Line)
        requires
            offset.value <= self@.len(),
            is_boundary(self@, offset.value as int),
        ensures
            r.value == newline_count(self@, offset.value as int),
    {
        self.cell.line_index_of_byte_offset_unchecked(offset)
    }

    /// The line index of the given byte offset, which must lie on a
    /// code-point boundary when it is within the text.
    pub fn line_index_of_byte_offset(&self, offset: Byte) -> (res: Result<Line, BoundsError>)
        requires
            offset.value <= self@.len() ==> is_boundary(self@, offset.value as int),
        ensures
            match res {
                Ok(l) => offset.value <= self@.len() && l.value == newline_count(
                    self@,
                    offset.value as int,
                ),
                Err(e) => offset.value > self@.len() && e == BoundsError::TooBig,
            },
    {
        self.cell.line_index_of_byte_offset(offset)
    }

    /// The line index of the given byte offset, snapped to a valid value and
    /// onto a code-point boundary first.
    pub fn line_index_of_byte_offset_snapped(&self, offset: Byte) -> (r: Line)
        ensures
            r.value == newline_count(
                self@,
                crate::content::snap_left(self@, clamped(offset.value as int, self@.len() as int)),
            ),
            is_boundary(self@, clamped(offset.value as int, self@.len() as int)) ==> r.value
                == newline_count(self@, clamped(offset.value as int, self@.len() as int)),
    {
        self.cell.line_index_of_byte_offset_snapped(offset)
    }

    /// The location of the provided byte offset, which must lie on a
    /// code-point boundary when it is within the text.
    pub fn location_of_byte_offset(&self, offset: Byte) -> (res: Result<
        Location<Byte, Line>,
        BoundsError,
    >)
        requires
            offset.value <= self@.len() ==> is_boundary(self@, offset.value as int),
        ensures
            match res {
                Ok(loc) => offset.value <= self@.len() && loc.line.value == newline_count(
                    self@,
                    offset.value as int,
                ) && loc.offset.value == offset.value - line_start(
                    self@,
                    newline_count(self@, offset.value as int) as int,
                ),
                Err(e) => offset.value > self@.len() && e == BoundsError::TooBig,
            },
    {
        self.cell.location_of_byte_offset(offset)
    }

    /// The location of the provided byte offset, snapped to a valid value and
    /// onto a code-point boundary first.
    pub fn location_of_byte_offset_snapped(&self, offset: Byte) -> (r: Location<Byte, Line>)
        ensures
            ({
                let off = crate::content::snap_left(
                    self@,
                    clamped(offset.value as int, self@.len() as int),
                );
                let line = newline_count(self@, off) as int;
                r.line.value == line && r.offset.value == off - line_start(self@, line)
            }),
            is_boundary(self@, clamped(offset.value as int, self@.len() as int)) ==> ({
                let off = clamped(offset.value as int, self@.len() as int);
                let line = newline_count(self@, off) as int;
                r.line.value == line && r.offset.value == off - line_start(self@, line)
            }),
    {
        self.cell.location_of_byte_offset_snapped(offset)
    }
}


// === Boundary snapping ===

impl Text {
    /// The closest code-point boundary at or before the given offset.
    pub fn snap_offset_to_boundary(&self, offset: Byte) -> (r: Byte)
        requires
            offset.value <= self@.len(),
        ensures
            r.value <= offset.value,
            is_boundary(self@, r.value as int),
            is_boundary(self@, offset.value as int) ==> r == offset,
            r.value == crate::content::snap_left(self@, offset.value as int),
    {
        if offset.value == 0 {
            return offset;
        }
        let len = self.byte_size();
        if offset.value == len.value {
            return offset;
        }
        match rope_prev_codepoint_offset(&self.rope, offset.value + 1) {
            Some(p) => {
                proof {
                    crate::content::lemma_snap_left_stable(self@, p as int, offset.value as int);
                }
                Byte { value: p }
            },
            None => Byte { value: 0 },
        }
    }

    /// The closest code-point boundary at or after the given offset.
    pub fn snap_offset_to_boundary_right(&self, offset: Byte) -> (r: Byte)
        requires
            offset.value <= self@.len(),
        ensures
            offset.value <= r.value <= self@.len(),
            is_boundary(self@, r.value as int),
            is_boundary(self@, offset.value as int) ==> r == offset,
    {
        if offset.value == 0 {
            return offset;
        }
        let len = self.byte_size();
        if offset.value == len.value {
            return offset;
        }
        // The closest boundary at or before the offset; stepping one
        // boundary forward from there reaches the closest one at or after.
        let before = match rope_prev_codepoint_offset(&self.rope, offset.value + 1) {
            Some(p) => p,
            None => 0,
        };
        if before == offset.value {
            return offset;
        }
        match rope_next_codepoint_offset(&self.rope, before) {
            Some(n) => Byte { value: n },
            None => len,
        }
    }
}


/// The location that location snapping yields: the line clamped into the
/// text, and the in-line offset clamped to the line's content length; a line
/// beyond the last snaps to the text's end location.
pub open spec fn snapped_location_spec(s: Seq<u8>, line: int, off: int) -> (int, int) {
    if line <= last_line_of(s) {
        (line, clamped(off, line_len(s, line)))
    } else {
        (
            last_line_of(s) as int,
            s.len() - line_start(s, last_line_of(s) as int),
        )
    }
}

/// Idempotence of location snapping.
///
/// Law: snapping a location into the text twice gives the same location as
/// snapping once, for every input, in particular every out-of-range one.
pub proof fn lemma_snap_location_idempotent(s: Seq<u8>, line: int, off: int)
    requires
        0 <= line,
        0 <= off,
    ensures
        ({
            let (l1, o1) = snapped_location_spec(s, line, off);
            snapped_location_spec(s, l1, o1) == (l1, o1)
        }),
{
    if line <= last_line_of(s) {
        crate::content::lemma_line_raw_end_bounds(s, line);
    } else {
        let last = last_line_of(s) as int;
        crate::content::lemma_line_start(s, last);
        crate::content::lemma_last_line_raw_end(s);
        assert(line_end(s, last) == line_raw_end(s, last));
    }
}

} // verus!


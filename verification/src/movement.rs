//! Cursor movement rules used to expand a bare cursor before a delete
//! operation: one grapheme cluster or one word to either side.

use vstd::prelude::*;

use crate::content::is_boundary;
use crate::rope::is_grapheme_boundary;
use crate::text::Text;
use crate::unit::Byte;

verus! {

/// A movement rule: one grapheme cluster or one word, to the left or to the
/// right.
#[derive(Clone, Copy, Debug, PartialEq, Eq, Structural)]
pub enum Transform {
    Left,
    Right,
    LeftWord,
    RightWord,
}

/// Whether a byte is one of the ASCII whitespace bytes that end a word.
pub open spec fn is_space_byte(b: u8) -> bool {
    b == 32u8 || b == 9u8 || b == 10u8 || b == 13u8
}

/// The position reached by stepping left over whitespace bytes from `i`.
pub open spec fn skip_spaces_back(s: Seq<u8>, i: int) -> int
    decreases i,
{
    if 0 < i <= s.len() && is_space_byte(s[i - 1]) {
        skip_spaces_back(s, i - 1)
    } else {
        i
    }
}

/// The position reached by stepping left over word bytes from `i`.
pub open spec fn skip_word_back(s: Seq<u8>, i: int) -> int
    decreases i,
{
    if 0 < i <= s.len() && !is_space_byte(s[i - 1]) {
        skip_word_back(s, i - 1)
    } else {
        i
    }
}

/// The position reached by stepping right over whitespace bytes from `i`.
pub open spec fn skip_spaces_forward(s: Seq<u8>, i: int) -> int
    decreases s.len() - i when 0 <= i <= s.len()
{
    if 0 <= i < s.len() && is_space_byte(s[i]) {
        skip_spaces_forward(s, i + 1)
    } else {
        i
    }
}

/// The position reached by stepping right over word bytes from `i`.
pub open spec fn skip_word_forward(s: Seq<u8>, i: int) -> int
    decreases s.len() - i when 0 <= i <= s.len()
{
    if 0 <= i < s.len() && !is_space_byte(s[i]) {
        skip_word_forward(s, i + 1)
    } else {
        i
    }
}

/// One step of the backwards whitespace scan.
fn scan_spaces_back(text: &Text, offset: Byte) -> (r: Byte)
    requires
        offset.value <= text@.len(),
    ensures
        r.value == skip_spaces_back(text@, offset.value as int),
        r.value <= offset.value,
{
    let mut i: usize = offset.value;
    loop
        invariant
            i <= offset.value <= text@.len(),
            skip_spaces_back(text@, offset.value as int) == skip_spaces_back(text@, i as int),
        ensures
            i == skip_spaces_back(text@, offset.value as int),
        decreases i,
    {
        if i == 0 {
            break ;
        }
        let b = crate::rope::rope_byte_at(&text.rope, i - 1);
        if !(b == 32u8 || b == 9u8 || b == 10u8 || b == 13u8) {
            break ;
        }
        i = i - 1;
    }
    Byte { value: i }
}

/// One step of the backwards word scan.
fn scan_word_back(text: &Text, offset: Byte) -> (r: Byte)
    requires
        offset.value <= text@.len(),
    ensures
        r.value == skip_word_back(text@, offset.value as int),
        r.value <= offset.value,
{
    let mut i: usize = offset.value;
    loop
        invariant
            i <= offset.value <= text@.len(),
            skip_word_back(text@, offset.value as int) == skip_word_back(text@, i as int),
        ensures
            i == skip_word_back(text@, offset.value as int),
        decreases i,
    {
        if i == 0 {
            break ;
        }
        let b = crate::rope::rope_byte_at(&text.rope, i - 1);
        if b == 32u8 || b == 9u8 || b == 10u8 || b == 13u8 {
            break ;
        }
        i = i - 1;
    }
    Byte { value: i }
}

/// The previous word boundary: whitespace, then a word, stepped over to the
/// left, with the landing point snapped left onto a code-point boundary.
pub fn prev_word_boundary(text: &Text, offset: Byte) -> (r: Byte)
    requires
        offset.value <= text@.len(),
    ensures
        r.value <= skip_word_back(text@, skip_spaces_back(text@, offset.value as int)),
        r.value <= offset.value,
        is_boundary(text@, r.value as int),
        offset.value > 0 ==> r.value < offset.value,
        ({
            let cand = skip_word_back(text@, skip_spaces_back(text@, offset.value as int));
            cand < offset.value && is_boundary(text@, cand) ==> r.value == cand
        }),
    {
    let after_spaces = scan_spaces_back(text, offset);
    let candidate = scan_word_back(text, after_spaces);
    let mut c = candidate.value;
    if c == offset.value && c > 0 {
        // No byte was stepped over; move at least one byte to make progress.
        c = c - 1;
    }
    text.snap_offset_to_boundary(Byte { value: c })
}

/// One step of the forward whitespace scan.
fn scan_spaces_forward(text: &Text, offset: Byte) -> (r: Byte)
    requires
        offset.value <= text@.len(),
    ensures
        r.value == skip_spaces_forward(text@, offset.value as int),
        offset.value <= r.value <= text@.len(),
{
    let len = text.byte_size().value;
    let mut i: usize = offset.value;
    loop
        invariant
            offset.value <= i <= len,
            len == text@.len(),
            skip_spaces_forward(text@, offset.value as int) == skip_spaces_forward(
                text@,
                i as int,
            ),
        ensures
            i == skip_spaces_forward(text@, offset.value as int),
        decreases len - i,
    {
        if i == len {
            break ;
        }
        let b = crate::rope::rope_byte_at(&text.rope, i);
        if !(b == 32u8 || b == 9u8 || b == 10u8 || b == 13u8) {
            break ;
        }
        i = i + 1;
    }
    Byte { value: i }
}

/// One step of the forward word scan.
fn scan_word_forward(text: &Text, offset: Byte) -> (r: Byte)
    requires
        offset.value <= text@.len(),
    ensures
        r.value == skip_word_forward(text@, offset.value as int),
        offset.value <= r.value <= text@.len(),
{
    let len = text.byte_size().value;
    let mut i: usize = offset.value;
    loop
        invariant
            offset.value <= i <= len,
            len == text@.len(),
            skip_word_forward(text@, offset.value as int) == skip_word_forward(text@, i as int),
        ensures
            i == skip_word_forward(text@, offset.value as int),
        decreases len - i,
    {
        if i == len {
            break ;
        }
        let b = crate::rope::rope_byte_at(&text.rope, i);
        if b == 32u8 || b == 9u8 || b == 10u8 || b == 13u8 {
            break ;
        }
        i = i + 1;
    }
    Byte { value: i }
}

/// The next word boundary: whitespace, then a word, stepped over to the
/// right, with the landing point snapped right onto a code-point boundary.
pub fn next_word_boundary(text: &Text, offset: Byte) -> (r: Byte)
    requires
        offset.value <= text@.len(),
    ensures
        offset.value <= r.value <= text@.len(),
        is_boundary(text@, r.value as int),
        offset.value < text@.len() ==> r.value > offset.value,
        ({
            let cand = skip_word_forward(text@, skip_spaces_forward(text@, offset.value as int));
            cand > offset.value && is_boundary(text@, cand) ==> r.value == cand
        }),
    {
    let after_spaces = scan_spaces_forward(text, offset);
    let candidate = scan_word_forward(text, after_spaces);
    let mut c = candidate.value;
    let len = text.byte_size().value;
    if c == offset.value && c < len {
        // No byte was stepped over; move at least one byte to make progress.
        c = c + 1;
    }
    text.snap_offset_to_boundary_right(Byte { value: c })
}

/// The previous grapheme-cluster boundary, or the offset itself at the text
/// start.
pub fn prev_grapheme_or_same(text: &Text, offset: Byte) -> (r: Byte)
    requires
        offset.value <= text@.len(),
    ensures
        r.value <= offset.value,
        is_boundary(text@, r.value as int) || r.value == offset.value,
        offset.value > 0 ==> r.value < offset.value && is_boundary(text@, r.value as int)
            && is_grapheme_boundary(text@, r.value as int) && forall|j: int|
            r.value < j < offset.value ==> !is_grapheme_boundary(text@, j),
{
    match text.prev_grapheme_offset(offset) {
        Some(p) => p,
        None => offset,
    }
}

/// The next grapheme-cluster boundary, or the offset itself at the text end.
pub fn next_grapheme_or_same(text: &Text, offset: Byte) -> (r: Byte)
    requires
        offset.value <= text@.len(),
    ensures
        offset.value <= r.value <= text@.len(),
        offset.value < text@.len() ==> r.value > offset.value && is_boundary(
            text@,
            r.value as int,
        ) && is_grapheme_boundary(text@, r.value as int) && forall|j: int|
            offset.value < j < r.value ==> !is_grapheme_boundary(text@, j),
{
    match text.next_grapheme_offset(offset) {
        Some(n) => n,
        None => offset,
    }
}

} // verus!

//! The trusted boundary around the rope that stores the text.
//!
//! The rope itself comes from the `xi_rope` crate. Verus refuses the rope
//! type's own declaration (its generic parameter carries a trait bound of
//! that crate), so the rope lives in the private field of [`Rope`], a struct
//! opaque to Verus. Everything the library proves about text rests on the
//! contracts stated here, which describe what the rope crate's own source
//! shows, over the byte-sequence model of [`crate::content`].

use vstd::prelude::*;
use vstd::string::StringSliceAdditionalSpecFns;

use crate::content::is_boundary;
use crate::content::last_line_of;
use crate::content::line_start;
use crate::content::newline_count;

verus! {

/// A handle to the persistent rope of `xi_rope` that holds the text's bytes.
#[verifier::external_body]
pub struct Rope {
    rope: xi_rope::Rope,
}

/// The bytes a rope holds, in order.
pub uninterp spec fn rope_bytes(r: Rope) -> Seq<u8>;

/// Whether `i` is a grapheme-cluster boundary of the byte sequence `s`, under
/// the segmentation that the rope's grapheme cursor implements. The same
/// bytes always give the same boundaries.
pub uninterp spec fn is_grapheme_boundary(s: Seq<u8>, i: int) -> bool;

/// Relies on `xi_rope::Rope::from` (via `FromStr`): the rope holds exactly
/// the bytes of the string.
#[verifier::external_body]
pub(crate) fn rope_from_str(s: &str) -> (r: Rope)
    ensures
        rope_bytes(r) == s.spec_bytes(),
{
    Rope { rope: xi_rope::Rope::from(s) }
}

/// Relies on `xi_rope::tree::Node::clone`: ropes are persistent values, and a
/// clone holds the same bytes.
#[verifier::external_body]
pub(crate) fn rope_clone(r: &Rope) -> (c: Rope)
    ensures
        rope_bytes(c) == rope_bytes(*r),
{
    Rope { rope: r.rope.clone() }
}

/// Relies on `xi_rope::tree::Node::len`: the length of the rope in bytes.
#[verifier::external_body]
pub(crate) fn rope_len(r: &Rope) -> (n: usize)
    ensures
        n == rope_bytes(*r).len(),
{
    r.rope.len()
}

/// Relies on `String::from(&Rope)` of `xi_rope`: concatenates the rope's
/// chunks, so the returned string's characters encode the rope's bytes.
#[verifier::external_body]
pub(crate) fn rope_to_string(r: &Rope) -> (s: String)
    ensures
        s@ == vstd::utf8::decode_utf8(rope_bytes(*r)),
        vstd::utf8::encode_utf8(s@) == rope_bytes(*r),
{
    String::from(&r.rope)
}

/// Relies on `xi_rope::tree::Node::edit`: replaces the byte range
/// `[start, end)` with the new rope's bytes. The range ends must lie on
/// code-point boundaries, else the rope's leaf slicing would panic.
#[verifier::external_body]
pub(crate) fn rope_edit(r: &mut Rope, start: usize, end: usize, new: &Rope)
    requires
        start <= end <= rope_bytes(*old(r)).len(),
        is_boundary(rope_bytes(*old(r)), start as int),
        is_boundary(rope_bytes(*old(r)), end as int),
    ensures
        rope_bytes(*final(r)) == rope_bytes(*old(r)).subrange(0, start as int) + rope_bytes(*new)
            + rope_bytes(*old(r)).subrange(end as int, rope_bytes(*old(r)).len() as int),
{
    r.rope.edit(start..end, new.rope.clone())
}

/// Relies on `xi_rope::tree::Node::subseq`: a new rope holding the bytes of
/// the given range. The range ends must lie on code-point boundaries.
#[verifier::external_body]
pub(crate) fn rope_slice(r: &Rope, start: usize, end: usize) -> (s: Rope)
    requires
        start <= end <= rope_bytes(*r).len(),
        is_boundary(rope_bytes(*r), start as int),
        is_boundary(rope_bytes(*r), end as int),
    ensures
        rope_bytes(s) == rope_bytes(*r).subrange(start as int, end as int),
{
    Rope { rope: r.rope.subseq(start..end) }
}

/// Relies on `xi_rope::tree::Node::measure` with the lines metric: the number
/// of newline bytes in the rope.
#[verifier::external_body]
pub(crate) fn rope_measure_lines(r: &Rope) -> (n: usize)
    ensures
        n == last_line_of(rope_bytes(*r)),
{
    r.rope.measure::<xi_rope::LinesMetric>()
}

/// Relies on `xi_rope::Rope::offset_of_line`: the byte offset where the given
/// line starts, which is the position just after the line-th newline. The
/// rope holds valid UTF-8, so a line start is also a code-point boundary.
#[verifier::external_body]
pub(crate) fn rope_offset_of_line(r: &Rope, line: usize) -> (off: usize)
    requires
        line <= last_line_of(rope_bytes(*r)),
    ensures
        off == line_start(rope_bytes(*r), line as int),
        is_boundary(rope_bytes(*r), off as int),
{
    r.rope.offset_of_line(line)
}

/// Relies on `xi_rope::Rope::line_of_offset`: the number of newline bytes
/// before the given offset. The offset must be a code-point boundary: the
/// lines metric slices a leaf string at the raw offset, which panics inside
/// a multi-byte code point.
#[verifier::external_body]
pub(crate) fn rope_line_of_offset(r: &Rope, offset: usize) -> (line: usize)
    requires
        offset <= rope_bytes(*r).len(),
        is_boundary(rope_bytes(*r), offset as int),
    ensures
        line == newline_count(rope_bytes(*r), offset as int),
{
    r.rope.line_of_offset(offset)
}

/// Relies on `xi_rope::Rope::next_codepoint_offset`: the next code-point
/// boundary strictly after the offset, or `None` at the text end. The input
/// must itself be a code-point boundary: from the middle of a code point the
/// rope adds that code point's length to the raw offset and can step past
/// the next boundary, or past the end.
#[verifier::external_body]
pub(crate) fn rope_next_codepoint_offset(r: &Rope, offset: usize) -> (res: Option<usize>)
    requires
        offset <= rope_bytes(*r).len(),
        is_boundary(rope_bytes(*r), offset as int),
    ensures
        res is None <==> offset == rope_bytes(*r).len(),
        match res {
            Some(n) => offset < n <= rope_bytes(*r).len() && is_boundary(rope_bytes(*r), n as int)
                && forall|j: int| offset < j < n ==> !is_boundary(rope_bytes(*r), j),
            None => true,
        },
{
    r.rope.next_codepoint_offset(offset)
}

/// Relies on `xi_rope::Rope::prev_codepoint_offset`: the closest code-point
/// boundary strictly before the offset, or `None` at the text start.
#[verifier::external_body]
pub(crate) fn rope_prev_codepoint_offset(r: &Rope, offset: usize) -> (res: Option<usize>)
    requires
        offset <= rope_bytes(*r).len(),
    ensures
        res is None <==> offset == 0,
        match res {
            Some(p) => p < offset && is_boundary(rope_bytes(*r), p as int) && forall|j: int|
                p < j < offset ==> !is_boundary(rope_bytes(*r), j),
            None => true,
        },
{
    r.rope.prev_codepoint_offset(offset)
}

/// Relies on `xi_rope::Rope::next_grapheme_offset`: the next grapheme-cluster
/// boundary strictly after the offset, or `None` at the text end. Grapheme
/// boundaries are also code-point boundaries.
#[verifier::external_body]
pub(crate) fn rope_next_grapheme_offset(r: &Rope, offset: usize) -> (res: Option<usize>)
    requires
        offset <= rope_bytes(*r).len(),
    ensures
        res is None <==> offset == rope_bytes(*r).len(),
        match res {
            Some(n) => offset < n <= rope_bytes(*r).len() && is_boundary(rope_bytes(*r), n as int)
                && is_grapheme_boundary(rope_bytes(*r), n as int) && forall|j: int|
                offset < j < n ==> !is_grapheme_boundary(rope_bytes(*r), j),
            None => true,
        },
{
    r.rope.next_grapheme_offset(offset)
}

/// Relies on `xi_rope::Rope::prev_grapheme_offset`: the closest
/// grapheme-cluster boundary strictly before the offset, or `None` at the
/// text start. Grapheme boundaries are also code-point boundaries.
#[verifier::external_body]
pub(crate) fn rope_prev_grapheme_offset(r: &Rope, offset: usize) -> (res: Option<usize>)
    requires
        offset <= rope_bytes(*r).len(),
    ensures
        res is None <==> offset == 0,
        match res {
            Some(p) => p < offset && is_boundary(rope_bytes(*r), p as int) && is_grapheme_boundary(
                rope_bytes(*r),
                p as int,
            ) && forall|j: int| p < j < offset ==> !is_grapheme_boundary(rope_bytes(*r), j),
            None => true,
        },
{
    r.rope.prev_grapheme_offset(offset)
}

/// Relies on `xi_rope::Rope::byte_at`: the byte at the given offset.
#[verifier::external_body]
pub(crate) fn rope_byte_at(r: &Rope, offset: usize) -> (b: u8)
    requires
        offset < rope_bytes(*r).len(),
    ensures
        b == rope_bytes(*r)[offset as int],
{
    r.rope.byte_at(offset)
}

/// Relies on `xi_rope::Rope::lines`: the lines of the given range, with `\n`
/// and `\r\n` terminators stripped and the final terminator optional, as the
/// model's `lines_of` describes. The range ends must lie on code-point
/// boundaries.
#[verifier::external_body]
pub(crate) fn rope_lines_vec(r: &Rope, start: usize, end: usize) -> (res: Vec<String>)
    requires
        start <= end <= rope_bytes(*r).len(),
        is_boundary(rope_bytes(*r), start as int),
        is_boundary(rope_bytes(*r), end as int),
    ensures
        res@.len() == crate::content::lines_of(
            rope_bytes(*r).subrange(start as int, end as int),
        ).len(),
        forall|i: int|
            0 <= i < res@.len() ==> vstd::utf8::encode_utf8(#[trigger] res@[i]@)
                == crate::content::lines_of(rope_bytes(*r).subrange(start as int, end as int))[i],
{
    let mut out = Vec::new();
    for line in r.rope.lines(start..end) {
        out.push(line.into_owned());
    }
    out
}

/// Relies on `xi_rope::compare::RopeScanner::find_min_diff_range`: the two
/// returned lengths bound a common prefix and a common suffix of the two
/// ropes, and together they do not exceed the length of either rope.
#[verifier::external_body]
pub(crate) fn rope_common_prefix_and_suffix(a: &Rope, b: &Rope) -> (res: (usize, usize))
    ensures
        res.0 + res.1 <= rope_bytes(*a).len(),
        res.0 + res.1 <= rope_bytes(*b).len(),
        rope_bytes(*a).subrange(0, res.0 as int) == rope_bytes(*b).subrange(0, res.0 as int),
        rope_bytes(*a).subrange(
            rope_bytes(*a).len() - res.1,
            rope_bytes(*a).len() as int,
        ) == rope_bytes(*b).subrange(rope_bytes(*b).len() - res.1, rope_bytes(*b).len() as int),
{
    let mut scanner = xi_rope::compare::RopeScanner::new(&a.rope, &b.rope);
    scanner.find_min_diff_range()
}

} // verus!

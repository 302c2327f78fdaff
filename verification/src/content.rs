//! The mathematical model of text content: a sequence of UTF-8 bytes, with
//! line structure derived from newline bytes and code-point boundaries derived
//! from the UTF-8 continuation-byte pattern.

use vstd::prelude::*;

verus! {

/// The newline byte.
pub open spec fn is_newline(b: u8) -> bool {
    b == 10u8
}

/// Whether a byte is a UTF-8 continuation byte (`10xxxxxx`).
pub open spec fn is_continuation(b: u8) -> bool {
    0x80 <= b < 0xC0
}

/// Whether `i` is a code-point boundary of `s`: the start, the end, or a
/// position holding a non-continuation byte.
pub open spec fn is_boundary(s: Seq<u8>, i: int) -> bool {
    0 <= i <= s.len() && (i == 0 || i == s.len() || !is_continuation(s[i]))
}

/// The number of newline bytes in `s[0..end]` (clamped to the sequence).
pub open spec fn newline_count(s: Seq<u8>, end: int) -> nat
    decreases end,
{
    if end <= 0 {
        0
    } else {
        newline_count(s, end - 1) + (if end - 1 < s.len() && is_newline(s[end - 1]) {
            1nat
        } else {
            0nat
        })
    }
}

/// The index of the last line of `s`: the number of newline bytes it holds.
/// A text that ends in a newline thus has an empty last line.
pub open spec fn last_line_of(s: Seq<u8>) -> nat {
    newline_count(s, s.len() as int)
}

/// The position of the first newline at or after `from`, or the length of `s`
/// if there is none.
pub open spec fn next_newline(s: Seq<u8>, from: int) -> int
    decreases s.len() - from when 0 <= from <= s.len()
{
    if from >= s.len() {
        s.len() as int
    } else if is_newline(s[from]) {
        from
    } else {
        next_newline(s, from + 1)
    }
}

/// The byte offset at which line `l` starts: 0 for the first line, and the
/// position just after the `l`-th newline otherwise.
pub open spec fn line_start(s: Seq<u8>, l: int) -> int
    decreases l,
{
    if l <= 0 {
        0
    } else {
        next_newline(s, line_start(s, l - 1)) + 1
    }
}

/// The byte offset at which line `l`'s terminator (or the text) ends: the
/// position of the newline that ends line `l`, or the text length for the
/// last line.
pub open spec fn line_raw_end(s: Seq<u8>, l: int) -> int {
    next_newline(s, line_start(s, l))
}

/// The byte offset after the last content byte of line `l`: the raw end,
/// stepping additionally over the `\r` of a `\r\n` terminator.
pub open spec fn line_end(s: Seq<u8>, l: int) -> int {
    let raw = line_raw_end(s, l);
    if raw < s.len() && raw - 1 >= line_start(s, l) && s[raw - 1] == 13u8 {
        raw - 1
    } else {
        raw
    }
}

/// The content bytes of line `l`: from its start to its content end, without
/// the terminator.
pub open spec fn line_content(s: Seq<u8>, l: int) -> Seq<u8> {
    s.subrange(line_start(s, l), line_end(s, l))
}

/// The lines of a byte sequence, split on newline bytes, with the `\r` of a
/// `\r\n` terminator stripped as well; a final terminator ends the last line
/// without starting a new one, and an empty sequence has no lines.
pub open spec fn lines_of(s: Seq<u8>) -> Seq<Seq<u8>>
    decreases s.len(),
    via lines_of_decreases
{
    if s.len() == 0 {
        Seq::empty()
    } else {
        let nn = next_newline(s, 0);
        if nn >= s.len() {
            seq![s]
        } else {
            let head = if nn >= 1 && s[nn - 1] == 13u8 {
                s.subrange(0, nn - 1)
            } else {
                s.subrange(0, nn)
            };
            seq![head] + lines_of(s.subrange(nn + 1, s.len() as int))
        }
    }
}

#[via_fn]
proof fn lines_of_decreases(s: Seq<u8>) {
    if s.len() != 0 {
        lemma_next_newline(s, 0);
    }
}

// ==============
// === Lemmas ===
// ==============

/// Newline counts never decrease as the prefix grows.
pub proof fn lemma_newline_count_monotone(s: Seq<u8>, i: int, j: int)
    requires
        i <= j,
    ensures
        newline_count(s, i) <= newline_count(s, j),
    decreases j - i,
{
    if i < j {
        lemma_newline_count_monotone(s, i, j - 1);
    }
}

/// A prefix without newline bytes does not change the newline count.
pub proof fn lemma_newline_count_stable(s: Seq<u8>, i: int, j: int)
    requires
        0 <= i <= j <= s.len(),
        forall|k: int| i <= k < j ==> !is_newline(s[k]),
    ensures
        newline_count(s, j) == newline_count(s, i),
    decreases j - i,
{
    if i < j {
        lemma_newline_count_stable(s, i, j - 1);
    }
}

/// Counting one newline byte: the count just after it is one more than just
/// before it.
pub proof fn lemma_newline_count_step(s: Seq<u8>, i: int)
    requires
        0 <= i < s.len(),
    ensures
        newline_count(s, i + 1) == newline_count(s, i) + (if is_newline(s[i]) {
            1nat
        } else {
            0nat
        }),
{
}

/// `next_newline` stays within bounds and the skipped bytes are not newlines.
pub proof fn lemma_next_newline(s: Seq<u8>, from: int)
    requires
        0 <= from <= s.len(),
    ensures
        from <= next_newline(s, from) <= s.len(),
        forall|k: int| from <= k < next_newline(s, from) ==> !is_newline(s[k]),
        next_newline(s, from) < s.len() ==> is_newline(s[next_newline(s, from)]),
    decreases s.len() - from,
{
    if from < s.len() && !is_newline(s[from]) {
        lemma_next_newline(s, from + 1);
    }
}

/// Line starts are well placed: for every line index up to the last line, the
/// start offset is within the text, the newline count up to it equals the
/// line index, and a positive start is preceded by a newline byte.
pub proof fn lemma_line_start(s: Seq<u8>, l: int)
    requires
        0 <= l <= last_line_of(s),
    ensures
        0 <= line_start(s, l) <= s.len(),
        newline_count(s, line_start(s, l)) == l,
        l > 0 ==> line_start(s, l) - 1 < s.len() && is_newline(s[line_start(s, l) - 1]),
    decreases l,
{
    if l == 0 {
    } else {
        lemma_line_start(s, l - 1);
        let prev = line_start(s, l - 1);
        lemma_next_newline(s, prev);
        let nn = next_newline(s, prev);
        lemma_newline_count_stable(s, prev, nn);
        if nn == s.len() {
            // Then newline_count(s, len) == l - 1 < l <= last_line_of(s): contradiction.
            assert(newline_count(s, s.len() as int) == l - 1);
            assert(false);
        }
        lemma_newline_count_step(s, nn);
    }
}

/// Line starts grow with the line index.
pub proof fn lemma_line_start_monotone(s: Seq<u8>, l1: int, l2: int)
    requires
        0 <= l1 <= l2 <= last_line_of(s),
    ensures
        line_start(s, l1) <= line_start(s, l2),
    decreases l2 - l1,
{
    if l1 < l2 {
        lemma_line_start_monotone(s, l1, l2 - 1);
        lemma_line_start(s, l2 - 1);
        lemma_next_newline(s, line_start(s, l2 - 1));
    }
}

/// The line that a byte offset falls in: the byte offset lies between the
/// start and the raw end of the line given by its newline count.
pub proof fn lemma_offset_within_its_line(s: Seq<u8>, off: int)
    requires
        0 <= off <= s.len(),
    ensures
        newline_count(s, off) <= last_line_of(s),
        line_start(s, newline_count(s, off) as int) <= off,
        off <= line_raw_end(s, newline_count(s, off) as int),
    decreases off,
{
    let l = newline_count(s, off) as int;
    lemma_newline_count_monotone(s, off, s.len() as int);
    if off == 0 {
        lemma_next_newline(s, 0);
    } else {
        lemma_offset_within_its_line(s, off - 1);
        let lp = newline_count(s, off - 1) as int;
        lemma_newline_count_step(s, off - 1);
        if is_newline(s[off - 1]) {
            // `off` starts the next line: line_start(s, lp + 1) == off.
            lemma_line_start_unique(s, lp + 1, off);
            lemma_next_newline(s, off);
        } else {
            // Same line; the raw end cannot be at `off - 1`.
            lemma_newline_count_monotone(s, off - 1, s.len() as int);
            lemma_line_start(s, lp);
            lemma_next_newline(s, line_start(s, lp));
            assert(line_raw_end(s, lp) >= off) by {
                if line_raw_end(s, lp) == off - 1 {
                    assert(is_newline(s[off - 1]));
                }
            }
        }
    }
}

/// A position just after a newline whose prefix holds `l` newlines is exactly
/// the start of line `l + 1`... stated the other way round: if
/// `newline_count(s, off) == l`, `off > 0`, and the byte before `off` is a
/// newline, then `line_start(s, l) == off`.
pub proof fn lemma_line_start_unique(s: Seq<u8>, l: int, off: int)
    requires
        0 < off <= s.len(),
        is_newline(s[off - 1]),
        newline_count(s, off) == l,
    ensures
        line_start(s, l) == off,
{
    lemma_newline_count_step(s, off - 1);
    let lp = l - 1;
    // newline_count(s, off - 1) == lp, and s[off - 1] is the (lp+1)-th newline.
    lemma_newline_count_monotone(s, off, s.len() as int);
    assert(last_line_of(s) >= l);
    lemma_line_start(s, lp);
    let st = line_start(s, lp);
    // st <= off - 1: newline_count(s, st) == lp and counts are monotone.
    assert(st <= off - 1) by {
        if st > off - 1 {
            lemma_newline_count_monotone(s, off, st);
            lemma_newline_count_step(s, off - 1);
            assert(newline_count(s, st) >= newline_count(s, off));
            assert(false);
        }
    }
    lemma_next_newline(s, st);
    let nn = next_newline(s, st);
    // No newline in [st, nn); s[off-1] is a newline with count lp at off-1.
    assert(nn == off - 1) by {
        if nn < off - 1 {
            lemma_newline_count_stable(s, st, nn);
            lemma_newline_count_step(s, nn);
            lemma_newline_count_monotone(s, nn + 1, off - 1);
            lemma_newline_count_stable(s, st, off - 1);
            assert(false);
        }
        if nn > off - 1 {
            assert(!is_newline(s[off - 1]));
            assert(false);
        }
    }
}

/// The raw end of every valid line lies within the text.
pub proof fn lemma_line_raw_end_bounds(s: Seq<u8>, l: int)
    requires
        0 <= l <= last_line_of(s),
    ensures
        line_start(s, l) <= line_raw_end(s, l) <= s.len(),
        line_start(s, l) <= line_end(s, l) <= line_raw_end(s, l),
{
    lemma_line_start(s, l);
    lemma_next_newline(s, line_start(s, l));
}

/// The last line's raw end is the text length.
pub proof fn lemma_last_line_raw_end(s: Seq<u8>)
    ensures
        line_raw_end(s, last_line_of(s) as int) == s.len(),
{
    let l = last_line_of(s) as int;
    lemma_line_start(s, l);
    lemma_next_newline(s, line_start(s, l));
    let nn = next_newline(s, line_start(s, l));
    if nn < s.len() {
        lemma_newline_count_stable(s, line_start(s, l), nn);
        lemma_newline_count_step(s, nn);
        lemma_newline_count_monotone(s, nn + 1, s.len() as int);
        assert(false);
    }
}


/// The content end of a valid line is a code-point boundary: it is the text
/// end, a newline byte, or the carriage return of a two-byte terminator.
pub proof fn lemma_line_end_is_boundary(s: Seq<u8>, l: int)
    requires
        0 <= l <= last_line_of(s),
    ensures
        is_boundary(s, line_end(s, l)),
{
    lemma_line_start(s, l);
    lemma_next_newline(s, line_start(s, l));
    let raw = line_raw_end(s, l);
    let e = line_end(s, l);
    if e == s.len() {
    } else if e == raw {
        assert(is_newline(s[raw]));
    } else {
        assert(s[e] == 13u8);
    }
}

/// Splicing a text keeps the code-point boundaries outside the replaced
/// range: positions before the splice point keep their byte, and positions
/// after the replaced range keep theirs, shifted by the length change.
pub proof fn lemma_splice_keeps_boundaries(
    s: Seq<u8>,
    start: int,
    end: int,
    ins: Seq<u8>,
    p: int,
)
    requires
        0 <= start <= end <= s.len(),
    ensures
        ({
            let t = s.subrange(0, start) + ins + s.subrange(end, s.len() as int);
            &&& (0 <= p < start && is_boundary(s, p) ==> is_boundary(t, p))
            &&& (end <= p <= s.len() && (p == s.len() || !is_continuation(s[p]))
                ==> is_boundary(t, p - end + start + ins.len()))
        }),
{
    let t = s.subrange(0, start) + ins + s.subrange(end, s.len() as int);
    assert(t.len() == start + ins.len() + (s.len() - end));
    if 0 <= p < start {
        assert(t[p] == s[p]);
    }
    if end <= p < s.len() {
        assert(t[p - end + start + ins.len()] == s[p]);
    }
    if p == s.len() {
        assert(p - end + start + ins.len() == t.len());
    }
}


/// The closest code-point boundary at or before `off` (clamped to the
/// sequence).
pub open spec fn snap_left(s: Seq<u8>, off: int) -> int
    decreases off,
{
    if off <= 0 {
        0
    } else if is_boundary(s, off) {
        off
    } else {
        snap_left(s, off - 1)
    }
}

/// `snap_left` is stable over an interval without boundaries.
pub proof fn lemma_snap_left_stable(s: Seq<u8>, i: int, j: int)
    requires
        0 <= i <= j,
        forall|k: int| i < k <= j ==> !is_boundary(s, k),
    ensures
        snap_left(s, j) == snap_left(s, i),
    decreases j - i,
{
    if i < j {
        lemma_snap_left_stable(s, i, j - 1);
    }
}

/// `snap_left` of a boundary is that boundary.
pub proof fn lemma_snap_left_of_boundary(s: Seq<u8>, off: int)
    requires
        is_boundary(s, off),
    ensures
        snap_left(s, off) == off,
{
}

/// Equal prefixes count equal newlines.
pub proof fn lemma_newline_count_prefix(s1: Seq<u8>, s2: Seq<u8>, i: int)
    requires
        0 <= i <= s1.len(),
        i <= s2.len(),
        forall|j: int| 0 <= j < i ==> s1[j] == s2[j],
    ensures
        newline_count(s1, i) == newline_count(s2, i),
    decreases i,
{
    if i > 0 {
        lemma_newline_count_prefix(s1, s2, i - 1);
    }
}

/// Counting newlines in a subrange: the count within `s[a..b]` up to `k`
/// equals the difference of the counts in `s`.
pub proof fn lemma_newline_count_subrange(s: Seq<u8>, a: int, b: int, k: int)
    requires
        0 <= a <= b <= s.len(),
        0 <= k <= b - a,
    ensures
        newline_count(s.subrange(a, b), k) == newline_count(s, a + k) - newline_count(s, a),
    decreases k,
{
    if k > 0 {
        lemma_newline_count_subrange(s, a, b, k - 1);
        assert(s.subrange(a, b)[k - 1] == s[a + k - 1]);
        lemma_newline_count_step(s, a + k - 1);
    }
}

/// Counting newlines across a splice: the last line of the spliced text is
/// the last line of the original, plus the difference that the splice
/// introduces at the insertion point.
pub proof fn lemma_splice_newline_counts(s: Seq<u8>, start: int, end: int, ins: Seq<u8>)
    requires
        0 <= start <= end <= s.len(),
    ensures
        ({
            let t = s.subrange(0, start) + ins + s.subrange(end, s.len() as int);
            &&& newline_count(t, start) == newline_count(s, start)
            &&& newline_count(t, start + ins.len()) == newline_count(s, start) + newline_count(
                ins,
                ins.len() as int,
            )
            &&& last_line_of(t) == last_line_of(s) + (newline_count(t, start + ins.len())
                - newline_count(s, end))
        }),
{
    let t = s.subrange(0, start) + ins + s.subrange(end, s.len() as int);
    assert(forall|j: int| 0 <= j < start ==> t[j] == s[j]);
    lemma_newline_count_prefix(t, s, start);
    // The inserted part.
    assert(t.subrange(start, start + ins.len()) =~= ins);
    lemma_newline_count_subrange(t, start, start + ins.len(), ins.len() as int);
    // The suffix.
    let tail_len = s.len() - end;
    assert(t.subrange(start + ins.len(), t.len() as int) =~= s.subrange(end, s.len() as int));
    lemma_newline_count_subrange(t, start + ins.len(), t.len() as int, tail_len);
    lemma_newline_count_subrange(s, end, s.len() as int, tail_len);
    assert(newline_count(t, t.len() as int) - newline_count(t, start + ins.len())
        == newline_count(s, s.len() as int) - newline_count(s, end));
}


/// `snap_left` lands on a boundary.
pub proof fn lemma_snap_left_is_boundary(s: Seq<u8>, off: int)
    ensures
        is_boundary(s, snap_left(s, off)),
    decreases off,
{
    if off <= 0 {
    } else if is_boundary(s, off) {
    } else {
        lemma_snap_left_is_boundary(s, off - 1);
    }
}

/// Idempotence of boundary snapping.
///
/// Law: snapping an offset onto the closest code-point boundary at or before
/// it, twice, gives the same boundary as snapping once.
pub proof fn lemma_snap_left_idempotent(s: Seq<u8>, off: int)
    ensures
        snap_left(s, snap_left(s, off)) == snap_left(s, off),
{
    lemma_snap_left_is_boundary(s, off);
    lemma_snap_left_of_boundary(s, snap_left(s, off));
}


/// `snap_left` never passes a boundary: every boundary at or below the
/// offset lies at or below the snap.
pub proof fn lemma_snap_left_lower_bound(s: Seq<u8>, off: int, p: int)
    requires
        is_boundary(s, p),
        p <= off,
    ensures
        p <= snap_left(s, off),
    decreases off - p,
{
    if p < off && !is_boundary(s, off) {
        lemma_snap_left_lower_bound(s, off - 1, p);
    }
}

} // verus!

//! The buffer model: styled text, selections, the shaped-line cache, the
//! batch edit engine, and the undo history.
//!
//! All state lives in one value and is mutated only through the command
//! methods here, so aliasing is controlled at the API boundary.

use vstd::prelude::*;

use crate::content::last_line_of;
use crate::content::lemma_line_raw_end_bounds;
use crate::content::lemma_line_start;
use crate::content::line_end;
use crate::content::line_start;
use crate::content::newline_count;
use crate::selection::Group;
use crate::selection::Id;
use crate::selection::Selection;
use crate::selection::unique_ids;
use crate::shaped::LineShapeCache;
use crate::shaped::ShapedLine;
use crate::style::FormatSpan;
use crate::style::NonVariableFaceHeader;
use crate::style::Rgba;
use crate::style::SdfWeight;
use crate::style::Size;
use crate::style::Style;
use crate::style::Underline;
use crate::style::Weight;
use crate::style::Width;
use crate::style::format_eq;
use crate::text::BoundsError;
use crate::text::Text;
use crate::text::clamped;
use crate::text::line_len;
use crate::unit::Byte;
use crate::unit::ByteDiff;
use crate::unit::Column;
use crate::unit::Line;
use crate::unit::LineDiff;
use crate::unit::Location;
use crate::unit::Range;
use crate::unit::ViewLine;

verus! {

// ==================
// === Properties ===
// ==================

/// A style property value to apply, or `None` in a field's position to mean
/// the field's default.
#[derive(Clone, Copy, Debug, PartialEq, Eq, Structural)]
pub enum Property {
    Size(Option<Size>),
    Color(Option<Rgba>),
    Weight(Option<Weight>),
    Width(Option<Width>),
    Style(Option<Style>),
    Underline(Option<Underline>),
    SdfWeight(Option<SdfWeight>),
}

/// A style property value with any default already substituted.
#[derive(Clone, Copy, Debug, PartialEq, Eq, Structural)]
pub enum ResolvedProperty {
    Size(Size),
    Color(Rgba),
    Weight(Weight),
    Width(Width),
    Style(Style),
    Underline(Underline),
    SdfWeight(SdfWeight),
}

/// A relative change of a numeric style property.
#[derive(Clone, Copy, Debug, PartialEq, Eq, Structural)]
pub enum PropertyDiff {
    Size(i32),
    SdfWeight(i32),
}

// ===============
// === History ===
// ===============

/// One snapshot of the buffer: its text, its style, and its selections,
/// taken just before an edit.
pub struct HistoryFrame {
    pub text: Text,
    pub style: FormatSpan,
    pub selection: Group,
}

/// The modification history: a stack of snapshots for undo. A redo stack is
/// part of the model but no operation fills it.
pub struct History {
    undo_stack: Vec<HistoryFrame>,
    #[allow(dead_code)]
    redo_stack: Vec<HistoryFrame>,
}

impl History {
    /// The undo snapshots, oldest first.
    pub closed spec fn frames(&self) -> Seq<HistoryFrame> {
        self.undo_stack@
    }

    /// An empty history.
    pub fn new() -> (r: History)
        ensures
            r.frames() == Seq::<HistoryFrame>::empty(),
    {
        History { undo_stack: Vec::new(), redo_stack: Vec::new() }
    }

    /// The number of snapshots that undo can pop.
    pub fn depth(&self) -> (r: usize)
        ensures
            r == self.frames().len(),
    {
        self.undo_stack.len()
    }
}

// ====================
// === Modification ===
// ====================

/// One buffer change: the text change, the inclusive range of lines it
/// rewrote, the change in line count, and the resulting selection in view
/// coordinates.
pub struct Change {
    /// The text change: the replaced byte range and the inserted text.
    pub change: crate::text::Change,
    /// The inclusive range of lines the change rewrote, in pre-edit indices.
    pub change_range: Range<Line>,
    /// The number of lines the change added (negative: removed).
    pub line_diff: LineDiff,
    /// The selection resulting from the change, in view coordinates.
    pub selection: Selection<Location<Column, ViewLine>>,
}

/// The summary of one batch modification: the changes, the resulting
/// selections, and the total byte drift.
pub struct Modification {
    pub changes: Vec<Change>,
    pub selection_group: Group,
    /// The total byte drift: the sum, over the changes, of inserted size
    /// minus removed size.
    pub byte_offset: ByteDiff,
}

/// One text replacement, as the splice it performs: the bytes before the
/// range, the inserted bytes, and the bytes after the range. A range outside
/// the text leaves it unchanged (the engine never records one).
pub open spec fn splice_of(s: Seq<u8>, lo: int, hi: int, ins: Seq<u8>) -> Seq<u8> {
    if 0 <= lo <= hi <= s.len() {
        s.subrange(0, lo) + ins + s.subrange(hi, s.len() as int)
    } else {
        s
    }
}

/// The text after the first `upto` changes of a batch, applied in order.
pub open spec fn applied_changes(s: Seq<u8>, changes: Seq<Change>, upto: int) -> Seq<u8>
    decreases upto,
{
    if upto <= 0 {
        s
    } else {
        let prev = applied_changes(s, changes, upto - 1);
        let ch = changes[upto - 1].change;
        splice_of(prev, ch.range.start.value as int, ch.range.end.value as int, ch.text@)
    }
}

/// The replacement text that selection `i` takes from the given chunks: its
/// own chunk, a single chunk broadcast to every selection, or the empty text
/// when the chunks run out (extra chunks beyond the selections are dropped
/// by the pairing itself).
pub open spec fn chunk_for(texts: Seq<Text>, i: int) -> Seq<u8> {
    if texts.len() == 1 {
        texts[0]@
    } else if 0 <= i < texts.len() {
        texts[i]@
    } else {
        Seq::empty()
    }
}

/// The byte range `[lo, hi)` that an edit replaces for the given selection
/// and movement rule, over the text it is applied to: the selection clamped
/// into the text, a bare cursor first expanded by the movement rule, the
/// ends ordered and snapped onto code-point boundaries.
pub open spec fn edit_range_spec(
    s0: Seq<u8>,
    selection: Selection<Byte>,
    transform: Option<crate::movement::Transform>,
    lo: int,
    hi: int,
) -> bool {
    let len0 = s0.len() as int;
    let a = clamped(selection.start.value as int, len0);
    let b = clamped(selection.end.value as int, len0);
    let mn = vstd::math::min(a, b);
    let mx = vstd::math::max(a, b);
    let sl = crate::content::snap_left(s0, mn);
    let sh = crate::content::snap_left(s0, mx);
    &&& ((transform is None || a != b) ==> lo == vstd::math::min(sl, sh) && hi == vstd::math::max(
        sl,
        sh,
    ))
    &&& (transform == Some(crate::movement::Transform::Left) && a == b ==> hi
        == crate::content::snap_left(s0, a) && (a == 0 ==> lo == 0) && (a > 0 ==> lo < a
        && crate::rope::is_grapheme_boundary(s0, lo) && forall|j: int|
        lo < j < a ==> !crate::rope::is_grapheme_boundary(s0, j)))
    &&& (transform == Some(crate::movement::Transform::Right) && a == b ==> lo
        == crate::content::snap_left(s0, a) && (a == len0 ==> hi == crate::content::snap_left(
        s0,
        a,
    )) && (a < len0 ==> hi > a && crate::rope::is_grapheme_boundary(s0, hi) && forall|j: int|
        a < j < hi ==> !crate::rope::is_grapheme_boundary(s0, j)))
    &&& (transform == Some(crate::movement::Transform::LeftWord) && a == b ==> hi
        == crate::content::snap_left(s0, a) && lo <= a && (a > 0 ==> lo < a) && ({
        let cand = crate::movement::skip_word_back(s0, crate::movement::skip_spaces_back(s0, a));
        cand < a && crate::content::is_boundary(s0, cand) ==> lo == cand
    }))
    &&& (transform == Some(crate::movement::Transform::RightWord) && a == b ==> lo
        == crate::content::snap_left(s0, a) && hi >= a && (a < len0 ==> hi > a) && ({
        let cand = crate::movement::skip_word_forward(
            s0,
            crate::movement::skip_spaces_forward(s0, a),
        );
        cand > a && crate::content::is_boundary(s0, cand) ==> hi == cand
    }))
}

/// The total byte drift that a sequence of changes carries: the sum of each
/// change's inserted size minus its removed size.
pub open spec fn drift_of(changes: Seq<Change>, upto: int) -> int
    decreases upto,
{
    if upto <= 0 {
        0
    } else {
        drift_of(changes, upto - 1) + (changes[upto - 1].change.text@.len()
            - (changes[upto - 1].change.range.end.value
            - changes[upto - 1].change.range.start.value))
    }
}

impl Modification {
    /// An empty modification.
    pub fn new() -> (r: Modification)
        ensures
            r.changes@.len() == 0,
            r.selection_group@.len() == 0,
            r.byte_offset.value == 0,
    {
        Modification {
            changes: Vec::new(),
            selection_group: Group::new(),
            byte_offset: ByteDiff { value: 0 },
        }
    }

    /// Fold another modification into this one: its changes follow this
    /// one's, its selections merge in, and the byte drifts add up.
    pub fn merge(&mut self, other: Modification)
        requires
            i128::MIN < old(self).byte_offset.value + other.byte_offset.value < i128::MAX,
        ensures
            final(self).changes@.len() == old(self).changes@.len() + other.changes@.len(),
            forall|i: int|
                0 <= i < old(self).changes@.len() ==> final(self).changes@[i] == old(self).changes@[i],
            forall|i: int|
                0 <= i < other.changes@.len() ==> final(self).changes@[old(self).changes@.len()
                    + i] == other.changes@[i],
            final(self).byte_offset.value == old(self).byte_offset.value
                + other.byte_offset.value,
            other.selection_group@.len() == 0 ==> final(self).selection_group@ == old(self).selection_group@,
            other.selection_group@.len() == 1 ==> final(self).selection_group@ == old(self).selection_group@.filter(
                |s: Selection<Location<Column, Line>>|
                    s.id.value != other.selection_group@[0].id.value,
            ).push(other.selection_group@[0]),
    {
        let Modification { changes, selection_group, byte_offset } = other;
        let mut changes = changes;
        let ghost orig = changes@;
        let n = changes.len();
        let mut i: usize = 0;
        while i < n
            invariant
                i <= n,
                n == orig.len(),
                changes@ == orig.subrange(i as int, n as int),
                self.changes@.len() == old(self).changes@.len() + i,
                forall|j: int|
                    0 <= j < old(self).changes@.len() ==> self.changes@[j] == old(self).changes@[j],
                forall|j: int|
                    0 <= j < i ==> self.changes@[old(self).changes@.len() + j] == orig[j],
                self.byte_offset == old(self).byte_offset,
                self.selection_group@ == old(self).selection_group@,
            decreases n - i,
        {
            let c = changes.remove(0);
            proof {
                assert(c == orig[i as int]);
                assert(orig.subrange(i as int, n as int).remove(0) =~= orig.subrange(
                    i as int + 1,
                    n as int,
                ));
            }
            self.changes.push(c);
            i = i + 1;
        }
        let m = selection_group.len();
        if m == 1 {
            match selection_group.first() {
                Some(s) => {
                    self.selection_group.merge(s);
                },
                None => {},
            }
        } else {
            let mut j: usize = 0;
            while j < m
                invariant
                    j <= m,
                    m == selection_group@.len(),
                    m != 1,
                    m == 0 ==> self.selection_group@ == old(self).selection_group@,
                    self.changes@.len() == old(self).changes@.len() + orig.len(),
                    forall|q: int|
                        0 <= q < old(self).changes@.len() ==> self.changes@[q] == old(self).changes@[q],
                    forall|q: int|
                        0 <= q < orig.len() ==> self.changes@[old(self).changes@.len() + q]
                            == orig[q],
                    self.byte_offset == old(self).byte_offset,
                decreases m - j,
            {
                self.selection_group.merge(selection_group.get(j));
                j = j + 1;
            }
        }
        self.byte_offset = ByteDiff { value: self.byte_offset.value + byte_offset.value };
    }
}

// ===================
// === BufferModel ===
// ===================

/// A buffer of styled text with selections, a view window, a shaped-line
/// cache, and an undo history.
pub struct BufferModel {
    text: Text,
    style: FormatSpan,
    selection: Group,
    next_selection_id: Id,
    shaped_lines: LineShapeCache,
    history: History,
    first_view_line: Line,
}

impl BufferModel {
    /// The bytes of the buffer's text.
    pub closed spec fn text_bytes(&self) -> Seq<u8> {
        self.text@
    }

    /// The buffer's style store.
    pub closed spec fn spec_style(&self) -> &FormatSpan {
        &self.style
    }

    /// The buffer's selections, in recency order.
    pub closed spec fn spec_selections(&self) -> Seq<Selection<Location<Column, Line>>> {
        self.selection@
    }

    /// The next selection identity to assign.
    pub closed spec fn spec_next_id(&self) -> int {
        self.next_selection_id.value as int
    }

    /// The shaped-line cache, as the map it holds.
    pub closed spec fn spec_cache(&self) -> Map<int, ShapedLine> {
        self.shaped_lines@
    }

    /// The undo snapshots, oldest first.
    pub closed spec fn spec_history(&self) -> Seq<HistoryFrame> {
        self.history.frames()
    }

    /// The line shown as the first view line.
    pub closed spec fn spec_first_view_line(&self) -> int {
        self.first_view_line.value as int
    }

    /// The buffer's internal invariant: the cache keys are distinct, the
    /// style spans lie within the text, the first view line is a valid line,
    /// and the selections carry distinct identities below the next one to
    /// assign.
    pub closed spec fn wf(&self) -> bool {
        &&& self.shaped_lines.wf()
        &&& self.style.bounded(self.text@.len() as int)
        &&& self.first_view_line.value <= last_line_of(self.text@)
        &&& unique_ids(self.selection@)
        &&& (forall|i: int|
            0 <= i < self.selection@.len() ==> (#[trigger] self.selection@[i]).id.value
                < self.next_selection_id.value)
        &&& (forall|k: int|
            #[trigger] self.shaped_lines@.contains_key(k) ==> 0 <= k <= last_line_of(self.text@))
        &&& (forall|i: int|
            0 <= i < self.history.frames().len() ==> ({
                let frame = #[trigger] self.history.frames()[i];
                frame.style.bounded(frame.text@.len() as int) && unique_ids(frame.selection@)
                    && forall|q: int|
                    0 <= q < frame.selection@.len() ==> (#[trigger] frame.selection@[q]).id.value
                        < self.next_selection_id.value
            }))
    }

    /// An empty buffer: no text, no explicit style spans, no selections, an
    /// empty cache and an empty history.
    pub fn new() -> (r: BufferModel)
        ensures
            r.wf(),
            r.text_bytes() == Seq::<u8>::empty(),
            r.spec_selections() == Seq::<Selection<Location<Column, Line>>>::empty(),
            r.spec_cache() == Map::<int, ShapedLine>::empty(),
            r.spec_history() == Seq::<HistoryFrame>::empty(),
            r.spec_first_view_line() == 0,
            r.spec_next_id() == 0,
    {
        let text = Text::new();
        let r = BufferModel {
            text,
            style: FormatSpan::new(),
            selection: Group::new(),
            next_selection_id: Id { value: 0 },
            shaped_lines: LineShapeCache::new(),
            history: History::new(),
            first_view_line: Line { value: 0 },
        };
        r
    }

    /// The buffer's text.
    pub fn text(&self) -> (r: &Text)
        ensures
            r@ == self.text_bytes(),
    {
        &self.text
    }

    /// A copy of the buffer's style store.
    pub fn style(&self) -> (r: FormatSpan)
        ensures
            format_eq(&r, self.spec_style()),
    {
        self.style.duplicate()
    }

    /// The full text range.
    pub fn full_range(&self) -> (r: Range<Byte>)
        ensures
            r.start.value == 0,
            r.end.value == self.text_bytes().len(),
    {
        Range { start: Byte { value: 0 }, end: self.text.byte_size() }
    }

    /// The end byte offset of the last line: the byte size of the text.
    pub fn last_line_end_byte_offset(&self) -> (r: Byte)
        ensures
            r.value == self.text_bytes().len(),
    {
        self.text.last_line_end_byte_offset()
    }

    /// The last line index of the text.
    pub fn last_line_index(&self) -> (r: Line)
        ensures
            r.value == last_line_of(self.text_bytes()),
    {
        self.text.last_line_index()
    }
}

// === View ===

impl BufferModel {
    /// The line that corresponds to the first view line.
    pub fn first_view_line(&self) -> (r: Line)
        ensures
            r.value == self.spec_first_view_line(),
    {
        self.first_view_line
    }

    /// Scroll the view so that the given line is the first visible one,
    /// clamped to the text's lines.
    pub fn set_first_view_line(&mut self, line: Line)
        requires
            old(self).wf(),
        ensures
            final(self).wf(),
            final(self).spec_first_view_line() == clamped(
                line.value as int,
                last_line_of(old(self).text_bytes()) as int,
            ),
            final(self).text_bytes() == old(self).text_bytes(),
            final(self).spec_selections() == old(self).spec_selections(),
            final(self).spec_cache() == old(self).spec_cache(),
            final(self).spec_history() == old(self).spec_history(),
            format_eq(final(self).spec_style(), old(self).spec_style()),
    {
        let last = self.text.last_line_index();
        if line.value <= last.value {
            self.first_view_line = line;
        } else {
            self.first_view_line = last;
        }
    }

    /// Scroll the view by the given number of lines, clamped to the text's
    /// lines, and return the new first view line.
    pub fn mod_first_view_line(&mut self, diff: LineDiff) -> (r: Line)
        requires
            old(self).wf(),
            diff.value > i128::MIN,
        ensures
            final(self).wf(),
            r.value == final(self).spec_first_view_line(),
            final(self).spec_first_view_line() == clamped(
                vstd::math::max(old(self).spec_first_view_line() + diff.value, 0),
                last_line_of(old(self).text_bytes()) as int,
            ),
            final(self).text_bytes() == old(self).text_bytes(),
            final(self).spec_selections() == old(self).spec_selections(),
            final(self).spec_cache() == old(self).spec_cache(),
            final(self).spec_history() == old(self).spec_history(),
            format_eq(final(self).spec_style(), old(self).spec_style()),
    {
        let cur = self.first_view_line.value;
        let line = if diff.value >= 0 {
            let last = self.text.last_line_index();
            if diff.value >= (last.value - cur) as i128 {
                last
            } else {
                Line { value: cur + (diff.value as usize) }
            }
        } else {
            let neg = -diff.value;
            if neg >= cur as i128 {
                Line { value: 0 }
            } else {
                Line { value: cur - (neg as usize) }
            }
        };
        self.set_first_view_line(line);
        self.first_view_line
    }

    /// The number of lines the view shows: all lines from the first view
    /// line to the last line of the text.
    pub fn view_line_count(&self) -> (r: usize)
        requires
            self.wf(),
        ensures
            r == clamped(
                last_line_of(self.text_bytes()) - self.spec_first_view_line() + 1,
                usize::MAX as int,
            ),
    {
        let last = self.text.last_line_index();
        let d = last.value - self.first_view_line.value;
        if d == usize::MAX {
            d
        } else {
            d + 1
        }
    }

    /// The line shown as the last view line: the last line of the text.
    pub fn last_view_line(&self) -> (r: Line)
        requires
            self.wf(),
        ensures
            r.value == last_line_of(self.text_bytes()),
    {
        self.text.last_line_index()
    }

    /// The last valid view line index.
    pub fn last_view_line_index(&self) -> (r: ViewLine)
        requires
            self.wf(),
        ensures
            r.value == clamped(
                last_line_of(self.text_bytes()) - self.spec_first_view_line(),
                usize::MAX - 1,
            ),
    {
        ViewLine { value: self.view_line_count() - 1 }
    }

    /// The inclusive range of valid view line indices.
    pub fn view_line_range(&self) -> (r: Range<ViewLine>)
        requires
            self.wf(),
        ensures
            r.start.value == 0,
            r.end.value == clamped(
                last_line_of(self.text_bytes()) - self.spec_first_view_line(),
                usize::MAX - 1,
            ),
    {
        Range { start: ViewLine { value: 0 }, end: self.last_view_line_index() }
    }

    /// The line a view line denotes, if it is within the text.
    pub fn try_line_of_view_line(&self, view_line: ViewLine) -> (res: Result<Line, BoundsError>)
        requires
            self.wf(),
        ensures
            match res {
                Ok(l) => self.spec_first_view_line() + view_line.value <= last_line_of(
                    self.text_bytes(),
                ) && l.value == self.spec_first_view_line() + view_line.value,
                Err(e) => self.spec_first_view_line() + view_line.value > last_line_of(
                    self.text_bytes(),
                ) && e == BoundsError::TooBig,
            },
    {
        let last = self.text.last_line_index();
        if view_line.value <= last.value - self.first_view_line.value {
            Ok(Line { value: self.first_view_line.value + view_line.value })
        } else {
            Err(BoundsError::TooBig)
        }
    }

    /// The line a view line denotes, snapped to the text's last line.
    pub fn line_of_view_line_snapped(&self, view_line: ViewLine) -> (r: Line)
        requires
            self.wf(),
        ensures
            r.value == clamped(
                self.spec_first_view_line() + view_line.value,
                last_line_of(self.text_bytes()) as int,
            ),
    {
        match self.try_line_of_view_line(view_line) {
            Ok(line) => line,
            Err(_) => self.text.last_line_index(),
        }
    }

    /// The view line a line denotes, if it is visible.
    pub fn try_view_line_of_line(&self, line: Line) -> (res: Result<ViewLine, BoundsError>)
        requires
            self.wf(),
        ensures
            match res {
                Ok(v) => self.spec_first_view_line() <= line.value <= last_line_of(
                    self.text_bytes(),
                ) && v.value == line.value - self.spec_first_view_line(),
                Err(BoundsError::TooSmall) => line.value < self.spec_first_view_line(),
                Err(BoundsError::TooBig) => line.value > last_line_of(self.text_bytes()),
            },
    {
        if line.value < self.first_view_line.value {
            Err(BoundsError::TooSmall)
        } else {
            let last = self.text.last_line_index();
            if line.value > last.value {
                Err(BoundsError::TooBig)
            } else {
                Ok(ViewLine { value: line.value - self.first_view_line.value })
            }
        }
    }

    /// The view line a line denotes, snapped to the visible range.
    pub fn view_line_of_line_snapped(&self, line: Line) -> (r: ViewLine)
        requires
            self.wf(),
        ensures
            line.value < self.spec_first_view_line() ==> r.value == 0,
            self.spec_first_view_line() <= line.value <= last_line_of(self.text_bytes())
                ==> r.value == line.value - self.spec_first_view_line(),
            line.value > last_line_of(self.text_bytes()) ==> r.value == clamped(
                last_line_of(self.text_bytes()) - self.spec_first_view_line(),
                usize::MAX - 1,
            ),
    {
        match self.try_view_line_of_line(line) {
            Ok(v) => v,
            Err(BoundsError::TooSmall) => ViewLine { value: 0 },
            Err(BoundsError::TooBig) => self.last_view_line_index(),
        }
    }

    /// The byte offset where the first view line starts.
    pub fn first_view_line_byte_offset(&self) -> (r: Byte)
        requires
            self.wf(),
        ensures
            r.value == line_start(self.text_bytes(), self.spec_first_view_line()),
            crate::content::is_boundary(self.text_bytes(), r.value as int),
    {
        self.text.byte_offset_of_line_index_unchecked(self.first_view_line)
    }

    /// The byte offset where the last view line starts.
    pub fn last_view_line_byte_offset(&self) -> (r: Byte)
        requires
            self.wf(),
        ensures
            r.value == line_start(self.text_bytes(), last_line_of(self.text_bytes()) as int),
    {
        self.text.last_line_byte_offset()
    }

    /// The byte range from the start of the first view line to the start of
    /// the last view line.
    pub fn view_line_byte_offset_range(&self) -> (r: Range<Byte>)
        requires
            self.wf(),
        ensures
            r.start.value == line_start(self.text_bytes(), self.spec_first_view_line()),
            r.end.value == line_start(self.text_bytes(), last_line_of(self.text_bytes()) as int),
    {
        Range {
            start: self.first_view_line_byte_offset(),
            end: self.last_view_line_byte_offset(),
        }
    }

    /// The byte offset of the view's end: the content end of the last view
    /// line.
    pub fn view_end_byte_offset_snapped(&self) -> (r: Byte)
        requires
            self.wf(),
        ensures
            r.value == line_end(self.text_bytes(), last_line_of(self.text_bytes()) as int),
            crate::content::is_boundary(self.text_bytes(), r.value as int),
    {
        let last = self.last_view_line();
        self.text.end_byte_offset_of_line_index_snapped(last)
    }

    /// The byte offset after the last content byte of the given view line, if
    /// that line exists.
    pub fn end_offset_of_view_line(&self, view_line: ViewLine) -> (res: Option<Byte>)
        requires
            self.wf(),
        ensures
            match res {
                Some(b) => self.spec_first_view_line() + view_line.value <= last_line_of(
                    self.text_bytes(),
                ) && b.value == line_end(
                    self.text_bytes(),
                    self.spec_first_view_line() + view_line.value,
                ),
                None => self.spec_first_view_line() + view_line.value > last_line_of(
                    self.text_bytes(),
                ),
            },
    {
        match self.try_line_of_view_line(view_line) {
            Ok(line) => match self.text.end_byte_offset_of_line_index(line) {
                Ok(b) => Some(b),
                Err(_) => None,
            },
            Err(_) => None,
        }
    }

    /// The byte range of the whole view: from the start of the first view
    /// line to the content end of the last one.
    pub fn view_byte_range(&self) -> (r: Range<Byte>)
        requires
            self.wf(),
        ensures
            r.start.value == line_start(self.text_bytes(), self.spec_first_view_line()),
            r.end.value == line_end(self.text_bytes(), last_line_of(self.text_bytes()) as int),
            crate::content::is_boundary(self.text_bytes(), r.start.value as int),
            crate::content::is_boundary(self.text_bytes(), r.end.value as int),
    {
        Range { start: self.first_view_line_byte_offset(), end: self.view_end_byte_offset_snapped() }
    }

    /// The byte offset where the given view line starts, if it is within the
    /// text.
    pub fn byte_offset_of_view_line_index(&self, view_line: ViewLine) -> (res: Result<
        Byte,
        BoundsError,
    >)
        requires
            self.wf(),
        ensures
            match res {
                Ok(b) => self.spec_first_view_line() + view_line.value <= last_line_of(
                    self.text_bytes(),
                ) && b.value == line_start(
                    self.text_bytes(),
                    self.spec_first_view_line() + view_line.value,
                ),
                Err(e) => self.spec_first_view_line() + view_line.value > last_line_of(
                    self.text_bytes(),
                ) && e == BoundsError::TooBig,
            },
    {
        match self.try_line_of_view_line(view_line) {
            Ok(line) => self.text.byte_offset_of_line_index(line),
            Err(e) => Err(e),
        }
    }

    /// The byte range of the given view line's content, snapped to the
    /// text's lines.
    pub fn byte_range_of_view_line_index_snapped(&self, view_line: ViewLine) -> (r: Range<Byte>)
        requires
            self.wf(),
        ensures
            ({
                let l = clamped(
                    self.spec_first_view_line() + view_line.value,
                    last_line_of(self.text_bytes()) as int,
                );
                r.start.value == line_start(self.text_bytes(), l) && r.end.value == line_end(
                    self.text_bytes(),
                    l,
                )
            }),
    {
        let line = self.line_of_view_line_snapped(view_line);
        self.text.byte_range_of_line_index_snapped(line)
    }

    /// The lines of a byte range, as the line splitter yields them, with the
    /// guarantee of at least one (empty) line.
    pub open spec fn lines_between_spec(s: Seq<u8>, lo: int, hi: int, r: Seq<String>) -> bool {
        let ls = crate::content::lines_of(s.subrange(lo, hi));
        if ls.len() == 0 {
            r.len() == 1 && r[0]@ == Seq::<char>::empty()
        } else {
            r.len() == ls.len() && forall|i: int|
                0 <= i < ls.len() ==> vstd::utf8::encode_utf8(#[trigger] r[i]@) == ls[i]
        }
    }

    /// The content of the lines in the given inclusive view-line range, as
    /// one string per line: the lines from the start of the range's first
    /// line to the content end of its last one.
    pub fn lines_content(&self, start: ViewLine, end: ViewLine) -> (r: Vec<String>)
        requires
            self.wf(),
        ensures
            r@.len() >= 1,
            ({
                let s = self.text_bytes();
                let sl = clamped(
                    self.spec_first_view_line() + start.value,
                    last_line_of(s) as int,
                );
                let el = clamped(self.spec_first_view_line() + end.value, last_line_of(s) as int);
                sl <= el ==> Self::lines_between_spec(
                    s,
                    line_start(s, sl),
                    line_end(s, el),
                    r@,
                )
            }),
    {
        let ghost s = self.text_bytes();
        let start_line = self.line_of_view_line_snapped(start);
        let end_line = self.line_of_view_line_snapped(end);
        let start_byte = self.text.byte_offset_of_line_index_snapped(start_line);
        let end_byte = self.text.end_byte_offset_of_line_index_snapped(end_line);
        proof {
            if start_line.value <= end_line.value {
                crate::content::lemma_line_start_monotone(
                    s,
                    start_line.value as int,
                    end_line.value as int,
                );
                lemma_line_raw_end_bounds(s, end_line.value as int);
            }
        }
        self.lines_vec_between(start_byte, end_byte)
    }

    /// The content of all view lines, as one string per line: the lines from
    /// the first view line's start to the last line's content end.
    pub fn view_lines_content(&self) -> (r: Vec<String>)
        requires
            self.wf(),
        ensures
            r@.len() >= 1,
            ({
                let s = self.text_bytes();
                Self::lines_between_spec(
                    s,
                    line_start(s, self.spec_first_view_line()),
                    line_end(s, last_line_of(s) as int),
                    r@,
                )
            }),
    {
        let ghost s = self.text_bytes();
        let range = self.view_byte_range();
        proof {
            crate::content::lemma_line_start_monotone(
                s,
                self.spec_first_view_line(),
                last_line_of(s) as int,
            );
            lemma_line_raw_end_bounds(s, last_line_of(s) as int);
            crate::content::lemma_line_end_is_boundary(s, last_line_of(s) as int);
        }
        self.lines_vec_between(range.start, range.end)
    }

    /// The lines covered by the given byte offsets (snapped into the text and
    /// onto code-point boundaries and put in order), with at least one
    /// (empty) line.
    fn lines_vec_between(&self, start: Byte, end: Byte) -> (r: Vec<String>)
        ensures
            r@.len() >= 1,
            start.value <= end.value <= self.text_bytes().len()
                && crate::content::is_boundary(self.text_bytes(), start.value as int)
                && crate::content::is_boundary(self.text_bytes(), end.value as int)
                ==> Self::lines_between_spec(
                self.text_bytes(),
                start.value as int,
                end.value as int,
                r@,
            ),
    {
        let len = self.text.byte_size();
        let s0 = if start.value <= len.value {
            start
        } else {
            len
        };
        let e0 = if end.value <= len.value {
            end
        } else {
            len
        };
        let s1 = self.text.snap_offset_to_boundary(s0);
        let e1 = self.text.snap_offset_to_boundary(e0);
        let (lo, hi) = if s1.value <= e1.value {
            (s1, e1)
        } else {
            (e1, s1)
        };
        let mut lines = self.text.lines(Range { start: lo, end: hi });
        if lines.len() == 0 {
            lines.push(String::new());
        }
        lines
    }
}

// === Selections ===

impl BufferModel {
    /// All active selections, in recency order.
    pub fn selections(&self) -> (r: Group)
        ensures
            r@ == self.spec_selections(),
    {
        self.selection.clone()
    }

    /// The contents of all selections, as one string per selection; a cursor
    /// yields an empty string.
    pub fn selections_contents(&mut self) -> (r: Vec<String>)
        requires
            old(self).wf(),
        ensures
            final(self).wf(),
            final(self).text_bytes() == old(self).text_bytes(),
            final(self).spec_selections() == old(self).spec_selections(),
            final(self).spec_history() == old(self).spec_history(),
            r@.len() == old(self).spec_selections().len(),
            forall|i: int|
                0 <= i < r@.len() ==> vstd::utf8::encode_utf8(#[trigger] r@[i]@) == ({
                    let a = column_location_byte_offset(
                        old(self).text_bytes(),
                        final(self).spec_cache(),
                        old(self).spec_selections()[i].start,
                    );
                    let b = column_location_byte_offset(
                        old(self).text_bytes(),
                        final(self).spec_cache(),
                        old(self).spec_selections()[i].end,
                    );
                    old(self).text_bytes().subrange(
                        vstd::math::min(a, b),
                        vstd::math::max(a, b),
                    )
                }),
    {
        let byte_selections = self.byte_selections();
        let ghost cache = self.spec_cache();
        let mut result: Vec<String> = Vec::new();
        let mut i: usize = 0;
        let n = byte_selections.len();
        while i < n
            invariant
                i <= n,
                n == byte_selections@.len(),
                self.wf(),
                cache == self.spec_cache(),
                self.text_bytes() == old(self).text_bytes(),
                self.spec_selections() == old(self).spec_selections(),
                self.spec_history() == old(self).spec_history(),
                format_eq(self.spec_style(), old(self).spec_style()),
                result@.len() == i,
                forall|j: int|
                    0 <= j < n ==> (#[trigger] byte_selections@[j]).start.value
                        <= self.text_bytes().len() && byte_selections@[j].end.value
                        <= self.text_bytes().len() && crate::content::is_boundary(
                        self.text_bytes(),
                        byte_selections@[j].start.value as int,
                    ) && crate::content::is_boundary(
                        self.text_bytes(),
                        byte_selections@[j].end.value as int,
                    ),
                forall|j: int|
                    0 <= j < n ==> (#[trigger] byte_selections@[j]).start.value
                        == column_location_byte_offset(
                        old(self).text_bytes(),
                        cache,
                        old(self).spec_selections()[j].start,
                    ) && byte_selections@[j].end.value == column_location_byte_offset(
                        old(self).text_bytes(),
                        cache,
                        old(self).spec_selections()[j].end,
                    ),
                forall|j: int|
                    0 <= j < i ==> vstd::utf8::encode_utf8(#[trigger] result@[j]@) == ({
                        let a = column_location_byte_offset(
                            old(self).text_bytes(),
                            cache,
                            old(self).spec_selections()[j].start,
                        );
                        let b = column_location_byte_offset(
                            old(self).text_bytes(),
                            cache,
                            old(self).spec_selections()[j].end,
                        );
                        old(self).text_bytes().subrange(
                            vstd::math::min(a, b),
                            vstd::math::max(a, b),
                        )
                    }),
            decreases n - i,
        {
            let sel = byte_selections[i];
            let range = sel.range();
            let text = self.text.sub(range);
            result.push(text.to_string());
            i = i + 1;
        }
        result
    }

    /// Set the selections. The given group's identities must be distinct;
    /// identities at or above the buffer's next one move it forward, so that
    /// fresh identities are never reused.
    pub fn set_selection(&mut self, selection: &Group)
        requires
            old(self).wf(),
            unique_ids(selection@),
            forall|i: int|
                0 <= i < selection@.len() ==> (#[trigger] selection@[i]).id.value < usize::MAX,
        ensures
            final(self).wf(),
            final(self).spec_selections() == selection@,
            final(self).text_bytes() == old(self).text_bytes(),
            final(self).spec_cache() == old(self).spec_cache(),
            final(self).spec_history() == old(self).spec_history(),
            format_eq(final(self).spec_style(), old(self).spec_style()),
            final(self).spec_first_view_line() == old(self).spec_first_view_line(),
    {
        let n = selection.len();
        let mut i: usize = 0;
        let mut next = self.next_selection_id.value;
        while i < n
            invariant
                i <= n,
                n == selection@.len(),
                next >= self.next_selection_id.value,
                forall|j: int|
                    0 <= j < selection@.len() ==> (#[trigger] selection@[j]).id.value
                        < usize::MAX,
                forall|j: int| 0 <= j < i ==> (#[trigger] selection@[j]).id.value < next,
            decreases n - i,
        {
            let id = selection.get(i).id.value;
            if id >= next {
                next = id + 1;
            }
            i = i + 1;
        }
        self.next_selection_id = Id { value: next };
        self.selection = selection.clone();
    }

    /// The least recently added selection, as a group of at most one.
    pub fn oldest_selection(&self) -> (r: Group)
        ensures
            self.spec_selections().len() == 0 ==> r@.len() == 0,
            self.spec_selections().len() > 0 ==> r@ == seq![self.spec_selections()[0]],
    {
        match self.selection.oldest() {
            Some(s) => Group::from_selection(s),
            None => Group::new(),
        }
    }

    /// The most recently added selection, as a group of at most one.
    pub fn newest_selection(&self) -> (r: Group)
        ensures
            self.spec_selections().len() == 0 ==> r@.len() == 0,
            self.spec_selections().len() > 0 ==> r@ == seq![
                self.spec_selections()[self.spec_selections().len() - 1],
            ],
    {
        match self.selection.newest() {
            Some(s) => Group::from_selection(s),
            None => Group::new(),
        }
    }

    /// The first selection, as a group of at most one.
    pub fn first_selection(&self) -> (r: Group)
        ensures
            self.spec_selections().len() == 0 ==> r@.len() == 0,
            self.spec_selections().len() > 0 ==> r@ == seq![self.spec_selections()[0]],
    {
        match self.selection.first() {
            Some(s) => Group::from_selection(s),
            None => Group::new(),
        }
    }

    /// The last selection, as a group of at most one.
    pub fn last_selection(&self) -> (r: Group)
        ensures
            self.spec_selections().len() == 0 ==> r@.len() == 0,
            self.spec_selections().len() > 0 ==> r@ == seq![
                self.spec_selections()[self.spec_selections().len() - 1],
            ],
    {
        match self.selection.last() {
            Some(s) => Group::from_selection(s),
            None => Group::new(),
        }
    }

    /// The first selection collapsed to a cursor at its start, as a group of
    /// at most one.
    pub fn first_cursor(&self) -> (r: Group)
        ensures
            self.spec_selections().len() == 0 ==> r@.len() == 0,
            self.spec_selections().len() > 0 ==> r@ == seq![
                Selection {
                    start: self.spec_selections()[0].start,
                    end: self.spec_selections()[0].start,
                    id: self.spec_selections()[0].id,
                },
            ],
    {
        match self.selection.first() {
            Some(s) => Group::from_selection(s.snap_to_start()),
            None => Group::new(),
        }
    }

    /// The last selection collapsed to a cursor at its start, as a group of
    /// at most one.
    pub fn last_cursor(&self) -> (r: Group)
        ensures
            self.spec_selections().len() == 0 ==> r@.len() == 0,
            self.spec_selections().len() > 0 ==> r@ == seq![
                Selection {
                    start: self.spec_selections()[self.spec_selections().len() - 1].start,
                    end: self.spec_selections()[self.spec_selections().len() - 1].start,
                    id: self.spec_selections()[self.spec_selections().len() - 1].id,
                },
            ],
    {
        match self.selection.last() {
            Some(s) => Group::from_selection(s.snap_to_start()),
            None => Group::new(),
        }
    }

    /// The least recently added selection collapsed to a cursor at its
    /// start, as a group of at most one.
    pub fn oldest_cursor(&self) -> (r: Group)
        ensures
            self.spec_selections().len() == 0 ==> r@.len() == 0,
            self.spec_selections().len() > 0 ==> r@ == seq![
                Selection {
                    start: self.spec_selections()[0].start,
                    end: self.spec_selections()[0].start,
                    id: self.spec_selections()[0].id,
                },
            ],
    {
        self.first_cursor()
    }

    /// The most recently added selection collapsed to a cursor at its start,
    /// as a group of at most one.
    pub fn newest_cursor(&self) -> (r: Group)
        ensures
            self.spec_selections().len() == 0 ==> r@.len() == 0,
            self.spec_selections().len() > 0 ==> r@ == seq![
                Selection {
                    start: self.spec_selections()[self.spec_selections().len() - 1].start,
                    end: self.spec_selections()[self.spec_selections().len() - 1].start,
                    id: self.spec_selections()[self.spec_selections().len() - 1].id,
                },
            ],
    {
        self.last_cursor()
    }

    /// The next selection identity the buffer will assign; callers can test
    /// it against the hard ceiling before asking for a fresh cursor.
    pub fn next_id(&self) -> (r: usize)
        ensures
            r == self.spec_next_id(),
    {
        self.next_selection_id.value
    }

    /// A new cursor at the given location, with a fresh identity.
    pub fn new_cursor(&mut self, location: Location<Column, Line>) -> (r: Selection<
        Location<Column, Line>,
    >)
        requires
            old(self).wf(),
            old(self).spec_next_id() < usize::MAX,
        ensures
            final(self).wf(),
            r.start == location,
            r.end == location,
            r.id.value == old(self).spec_next_id(),
            final(self).spec_next_id() == old(self).spec_next_id() + 1,
            final(self).text_bytes() == old(self).text_bytes(),
            final(self).spec_selections() == old(self).spec_selections(),
            final(self).spec_cache() == old(self).spec_cache(),
            final(self).spec_history() == old(self).spec_history(),
            format_eq(final(self).spec_style(), old(self).spec_style()),
            final(self).spec_first_view_line() == old(self).spec_first_view_line(),
    {
        let id = self.next_selection_id;
        self.next_selection_id = Id { value: id.value + 1 };
        Selection::new_cursor(location, id)
    }

    /// A group with the cursor at the given location: the most recent
    /// selection's identity is reused if one exists, else a fresh cursor is
    /// made.
    pub fn set_cursor(&mut self, location: Location<Column, Line>) -> (r: Group)
        requires
            old(self).wf(),
            old(self).spec_next_id() < usize::MAX,
        ensures
            final(self).wf(),
            old(self).spec_selections().len() > 0 ==> r@ == seq![
                Selection {
                    start: location,
                    end: location,
                    id: old(self).spec_selections()[old(self).spec_selections().len() - 1].id,
                },
            ] && final(self).spec_next_id() == old(self).spec_next_id(),
            old(self).spec_selections().len() == 0 ==> r@ == seq![
                Selection { start: location, end: location, id: Id { value: old(self).spec_next_id() as usize } },
            ] && final(self).spec_next_id() == old(self).spec_next_id() + 1,
            final(self).text_bytes() == old(self).text_bytes(),
            final(self).spec_selections() == old(self).spec_selections(),
    {
        match self.selection.last() {
            Some(s) => Group::from_selection(s.with_location(location)),
            None => {
                let c = self.new_cursor(location);
                Group::from_selection(c)
            },
        }
    }

    /// The current group with a fresh cursor at the given location added as
    /// the most recent selection.
    pub fn add_cursor(&mut self, location: Location<Column, Line>) -> (r: Group)
        requires
            old(self).wf(),
            old(self).spec_next_id() < usize::MAX,
        ensures
            final(self).wf(),
            r@ == old(self).spec_selections().filter(
                |s: Selection<Location<Column, Line>>|
                    s.id.value != old(self).spec_next_id(),
            ).push(
                Selection {
                    start: location,
                    end: location,
                    id: Id { value: old(self).spec_next_id() as usize },
                },
            ),
            final(self).spec_next_id() == old(self).spec_next_id() + 1,
            final(self).spec_selections() == old(self).spec_selections(),
            final(self).text_bytes() == old(self).text_bytes(),
    {
        let mut group = self.selection.clone();
        let cursor = self.new_cursor(location);
        group.merge(cursor);
        group
    }

    /// The current group with the end of its most recent selection moved to
    /// the given location.
    pub fn set_newest_selection_end(&mut self, location: Location<Column, Line>) -> (r: Group)
        requires
            old(self).wf(),
        ensures
            final(self).wf(),
            old(self).spec_selections().len() == 0 ==> r@ == old(self).spec_selections(),
            old(self).spec_selections().len() > 0 ==> r@ == old(self).spec_selections().update(
                old(self).spec_selections().len() - 1,
                Selection {
                    start: old(self).spec_selections()[old(self).spec_selections().len()
                        - 1].start,
                    end: location,
                    id: old(self).spec_selections()[old(self).spec_selections().len() - 1].id,
                },
            ),
            final(self).spec_selections() == old(self).spec_selections(),
            final(self).text_bytes() == old(self).text_bytes(),
            final(self).spec_history() == old(self).spec_history(),
            final(self).spec_next_id() == old(self).spec_next_id(),
    {
        let mut group = self.selection.clone();
        group.set_newest_selection_end(location);
        group
    }

    /// The current group with the end of its least recent selection moved to
    /// the given location.
    pub fn set_oldest_selection_end(&mut self, location: Location<Column, Line>) -> (r: Group)
        requires
            old(self).wf(),
        ensures
            final(self).wf(),
            old(self).spec_selections().len() == 0 ==> r@ == old(self).spec_selections(),
            old(self).spec_selections().len() > 0 ==> r@ == old(self).spec_selections().update(
                0,
                Selection {
                    start: old(self).spec_selections()[0].start,
                    end: location,
                    id: old(self).spec_selections()[0].id,
                },
            ),
            final(self).spec_selections() == old(self).spec_selections(),
            final(self).text_bytes() == old(self).text_bytes(),
            final(self).spec_history() == old(self).spec_history(),
            final(self).spec_next_id() == old(self).spec_next_id(),
    {
        let mut group = self.selection.clone();
        group.set_oldest_selection_end(location);
        group
    }
}


// === Line shaping ===

impl BufferModel {
    /// Drop every cached shaped line; all lines will be reshaped on demand.
    pub fn clear_shaped_lines_cache(&mut self)
        requires
            old(self).wf(),
        ensures
            final(self).wf(),
            final(self).spec_cache() == Map::<int, ShapedLine>::empty(),
            final(self).text_bytes() == old(self).text_bytes(),
            final(self).spec_selections() == old(self).spec_selections(),
            final(self).spec_history() == old(self).spec_history(),
            format_eq(final(self).spec_style(), old(self).spec_style()),
    {
        self.shaped_lines.clear();
    }

    /// Drop the cached shaped line of the given line index, if any.
    pub fn clear_shaped_lines_cache_for_line(&mut self, line: Line)
        requires
            old(self).wf(),
        ensures
            final(self).wf(),
            final(self).spec_cache() =~= old(self).spec_cache().remove(line.value as int),
            final(self).text_bytes() == old(self).text_bytes(),
            final(self).spec_selections() == old(self).spec_selections(),
            final(self).spec_history() == old(self).spec_history(),
            format_eq(final(self).spec_style(), old(self).spec_style()),
    {
        self.shaped_lines.remove(line.value);
    }

    /// Shape the given line (snapped to the text's lines) with the built-in
    /// fallback shaper: one glyph per grapheme cluster, shaped as one run
    /// with the style of the line's first byte.
    #[verifier::rlimit(100)]
    pub fn shape_line(&self, line: Line) -> (r: ShapedLine)
        requires
            self.wf(),
        ensures
            ({
                let s = self.text_bytes();
                let l = clamped(line.value as int, last_line_of(s) as int);
                let cs = crate::shaped::line_clusters(r);
                &&& fallback_shaped(s, l, r)
                &&& crate::shaped::wf_shaped(r, line_len(s, l))
                &&& (line_len(s, l) > 0 ==> cs.len() > 0 && cs[0] == 0)
                &&& (line_len(s, l) == 0 ==> match r {
                    ShapedLine::Empty { prev_glyph_info } => {
                        &&& (line_start(s, l) == 0 ==> prev_glyph_info is None)
                        &&& (line_start(s, l) > 0 ==> match prev_glyph_info {
                            Some(info) => info.0.value < line_start(s, l)
                                && crate::rope::is_grapheme_boundary(s, info.0.value as int)
                                && info.1.glyphs@.len() == 1,
                            None => false,
                        })
                    },
                    ShapedLine::NonEmpty { .. } => false,
                })
                &&& (forall|k: int|
                    0 < k < cs.len() ==> crate::rope::is_grapheme_boundary(
                        s,
                        line_start(s, l) + #[trigger] cs[k],
                    ))
                &&& (forall|j: int|
                    line_start(s, l) < j < line_start(s, l) + line_len(s, l)
                        && crate::rope::is_grapheme_boundary(s, j) ==> cs.contains(
                        j - line_start(s, l),
                    ))
            }),
    {
        let ghost s = self.text_bytes();
        let last = self.text.last_line_index();
        let line = if line.value <= last.value {
            line
        } else {
            last
        };
        let ghost l = line.value as int;
        proof {
            lemma_line_raw_end_bounds(s, l);
        }
        let text_len = self.text.byte_size();
        let start = self.text.byte_offset_of_line_index_unchecked(line);
        let llen = self.text.line_byte_length(line);
        proof {
            assert(start.value + llen.value == line_end(s, l) <= text_len.value);
        }
        if llen.value == 0 {
            // An empty line's entry carries the glyph that ended the
            // previous line, so that the line's height can be computed.
            let r = if start.value > 0 {
                let prev = match self.text.prev_grapheme_offset(start) {
                    Some(p) => p,
                    None => vstd::pervasive::unreached(),
                };
                let header = self.style.face_header_at(prev.value);
                let mut glyphs: Vec<crate::shaped::ShapedGlyph> = Vec::new();
                glyphs.push(
                    crate::shaped::ShapedGlyph {
                        cluster: 0,
                        glyph_id: 0,
                        x_advance: 0,
                        y_advance: 0,
                    },
                );
                let set = crate::shaped::ShapedGlyphSet {
                    units_per_em: 1000,
                    ascender: 800,
                    descender: -200,
                    line_gap: 0,
                    non_variable_variations: header,
                    glyphs,
                };
                ShapedLine::Empty { prev_glyph_info: Some((prev, set)) }
            } else {
                ShapedLine::Empty { prev_glyph_info: None }
            };
            proof {
                assert(crate::shaped::line_clusters(r) =~= Seq::<int>::empty());
            }
            return r;
        }
        let line_end_abs = start.value + llen.value;
        let mut glyphs: Vec<crate::shaped::ShapedGlyph> = Vec::new();
        glyphs.push(
            crate::shaped::ShapedGlyph { cluster: 0, glyph_id: 0, x_advance: 0, y_advance: 0 },
        );
        let mut off: usize = start.value;
        proof {
            assert(glyphs@.map(|k: int, g: crate::shaped::ShapedGlyph| g.cluster as int) =~= seq![
                0int,
            ]);
        }
        loop
            invariant
                self.wf(),
                s == self.text_bytes(),
                0 <= l <= last_line_of(s),
                start.value == line_start(s, l),
                llen.value == line_len(s, l),
                llen.value > 0,
                line_end_abs == start.value + llen.value,
                line_end_abs <= s.len(),
                start.value <= off < line_end_abs,
                glyphs@.len() > 0,
                ({
                    let cs = glyphs@.map(|k: int, g: crate::shaped::ShapedGlyph| g.cluster as int);
                    &&& cs[0] == 0
                    &&& cs[cs.len() - 1] == off - start.value
                    &&& (forall|k: int| 0 <= k < cs.len() ==> 0 <= #[trigger] cs[k] < llen.value)
                    &&& (forall|k: int| 0 < k < cs.len() ==> cs[k - 1] < #[trigger] cs[k])
                    &&& (forall|k: int|
                        0 < k < cs.len() ==> crate::rope::is_grapheme_boundary(
                            s,
                            start.value + #[trigger] cs[k],
                        ))
                    &&& (forall|j: int|
                        start.value < j <= off && crate::rope::is_grapheme_boundary(s, j)
                            ==> cs.contains(j - start.value))
                }),
            ensures
                ({
                    let cs = glyphs@.map(|k: int, g: crate::shaped::ShapedGlyph| g.cluster as int);
                    &&& cs.len() > 0
                    &&& cs[0] == 0
                    &&& (forall|k: int| 0 <= k < cs.len() ==> 0 <= #[trigger] cs[k] < llen.value)
                    &&& (forall|k: int| 0 < k < cs.len() ==> cs[k - 1] < #[trigger] cs[k])
                    &&& (forall|k: int|
                        0 < k < cs.len() ==> crate::rope::is_grapheme_boundary(
                            s,
                            start.value + #[trigger] cs[k],
                        ))
                    &&& (forall|j: int|
                        start.value < j < start.value + llen.value
                            && crate::rope::is_grapheme_boundary(s, j) ==> cs.contains(
                            j - start.value,
                        ))
                }),
            decreases line_end_abs - off,
        {
            let ghost cs0 = glyphs@.map(|k: int, g: crate::shaped::ShapedGlyph| g.cluster as int);
            let next = match self.text.next_grapheme_offset(Byte { value: off }) {
                Some(n) => n,
                None => {
                    // Unreachable: the scan stands strictly inside the text.
                    proof {
                        assert(false);
                    }
                    break ;
                },
            };
            if next.value >= line_end_abs {
                proof {
                    assert forall|j: int|
                        start.value < j <= line_end_abs - 1 && crate::rope::is_grapheme_boundary(
                            s,
                            j,
                        ) implies cs0.contains(j - start.value) by {
                        if j > off {
                            assert(off < j < next.value);
                            assert(false);
                        }
                    }
                }
                break ;
            }
            glyphs.push(
                crate::shaped::ShapedGlyph {
                    cluster: next.value - start.value,
                    glyph_id: 0,
                    x_advance: 0,
                    y_advance: 0,
                },
            );
            proof {
                let cs1 = glyphs@.map(
                    |k: int, g: crate::shaped::ShapedGlyph| g.cluster as int,
                );
                assert(cs1 =~= cs0.push(next.value - start.value));
                assert forall|j: int|
                    start.value < j <= next.value && crate::rope::is_grapheme_boundary(
                        s,
                        j,
                    ) implies cs1.contains(j - start.value) by {
                    if j <= off {
                        assert(cs0.contains(j - start.value));
                        let q = choose|q: int| 0 <= q < cs0.len() && cs0[q] == j - start.value;
                        assert(cs1[q] == j - start.value);
                    } else if j == next.value {
                        assert(cs1[cs1.len() - 1] == j - start.value);
                    } else {
                        assert(off < j < next.value);
                        assert(false);
                    }
                }
            }
            off = next.value;
        }
        let ghost gcs = glyphs@.map(|k: int, g: crate::shaped::ShapedGlyph| g.cluster as int);
        let r = ShapedLine::NonEmpty { glyph_sets: one_glyph_set(glyphs, self.style.face_header_at(start.value)) };
        proof {
            match &r {
                ShapedLine::NonEmpty { glyph_sets } => {
                    assert(glyph_sets@.len() == 1);
                    assert(glyph_sets@.subrange(1, 1) =~= Seq::<crate::shaped::ShapedGlyphSet>::empty());
                    assert(crate::shaped::sets_clusters(glyph_sets@) == crate::shaped::set_clusters(
                        glyph_sets@[0],
                    ) + crate::shaped::sets_clusters(glyph_sets@.subrange(1, 1)));
                    assert(crate::shaped::set_clusters(glyph_sets@[0]) + Seq::<int>::empty()
                        =~= crate::shaped::set_clusters(glyph_sets@[0]));
                    assert(crate::shaped::set_clusters(glyph_sets@[0]) =~= gcs);
                    assert(crate::shaped::line_clusters(r) =~= gcs);
                },
                ShapedLine::Empty { .. } => {},
            }
        }
        r
    }

    /// Shape the line if no shaped form of it is cached, and hand back the
    /// cached shaped line.
    pub fn with_shaped_line(&mut self, line: Line) -> (r: &ShapedLine)
        requires
            old(self).wf(),
        ensures
            final(self).wf(),
            ({
                let l = clamped(line.value as int, last_line_of(old(self).text_bytes()) as int);
                &&& (old(self).spec_cache().contains_key(l) ==> final(self).spec_cache() == old(self).spec_cache())
                &&& (!old(self).spec_cache().contains_key(l) ==> final(self).spec_cache()
                    =~= old(self).spec_cache().insert(
                    l,
                    final(self).spec_cache()[l],
                ) && crate::shaped::wf_shaped(
                    final(self).spec_cache()[l],
                    line_len(old(self).text_bytes(), l),
                ) && fallback_shaped(
                    old(self).text_bytes(),
                    l,
                    final(self).spec_cache()[l],
                ))
                &&& conversion_cache_ok(
                    old(self).text_bytes(),
                    old(self).spec_cache(),
                    final(self).spec_cache(),
                )
                &&& final(self).spec_cache().contains_key(l)
                &&& *r == final(self).spec_cache()[l]
            }),
            cache_preserves(old(self).spec_cache(), final(self).spec_cache()),
            conversion_cache_ok(
                old(self).text_bytes(),
                old(self).spec_cache(),
                final(self).spec_cache(),
            ),
            final(self).text_bytes() == old(self).text_bytes(),
            final(self).spec_selections() == old(self).spec_selections(),
            final(self).spec_history() == old(self).spec_history(),
            format_eq(final(self).spec_style(), old(self).spec_style()),
            final(self).spec_first_view_line() == old(self).spec_first_view_line(),
    {
        let last = self.text.last_line_index();
        let idx = if line.value <= last.value {
            line.value
        } else {
            last.value
        };
        let missing = match self.shaped_lines.get(idx) {
            Some(_) => false,
            None => true,
        };
        if missing {
            let shaped = self.shape_line(Line { value: idx });
            self.shaped_lines.insert(idx, shaped);
        }
        match self.shaped_lines.get(idx) {
            Some(r) => r,
            None => vstd::pervasive::unreached(),
        }
    }

    /// The byte ranges and face parameters of the maximal style-uniform runs
    /// of the given line (snapped to the text's lines): what the external
    /// shaping service is asked to shape, one call per run.
    #[verifier::rlimit(100)]
    pub fn line_shaping_request(&self, line: Line) -> (r: Vec<crate::style::FontFaceChunk>)
        requires
            self.wf(),
        ensures
            ({
                let s = self.text_bytes();
                let l = clamped(line.value as int, last_line_of(s) as int);
                &&& (line_len(s, l) == 0 ==> r@.len() == 0)
                &&& (line_len(s, l) > 0 ==> r@.len() > 0 && r@[0].range.start.value == 0
                    && r@[r@.len() - 1].range.end.value == line_len(s, l))
                &&& (forall|k: int|
                    0 < k < r@.len() ==> (#[trigger] r@[k]).range.start.value == r@[k
                        - 1].range.end.value)
                &&& (forall|k: int|
                    0 <= k < r@.len() ==> (#[trigger] r@[k]).range.start.value
                        < r@[k].range.end.value)
                &&& (forall|k: int, i: int|
                    0 <= k < r@.len() && r@[k].range.start.value <= i < r@[k].range.end.value
                        ==> #[trigger] self.spec_style().face_at(i + line_start(s, l)) == (
                    #[trigger] r@[k]).header)
                &&& (forall|k: int|
                    0 < k < r@.len() ==> (#[trigger] r@[k]).header != r@[k - 1].header)
            }),
    {
        let last = self.text.last_line_index();
        let line = if line.value <= last.value {
            line
        } else {
            last
        };
        proof {
            lemma_line_raw_end_bounds(self.text_bytes(), line.value as int);
        }
        let text_len = self.text.byte_size();
        let start = self.text.byte_offset_of_line_index_unchecked(line);
        let llen = self.text.line_byte_length(line);
        proof {
            assert(start.value + llen.value == line_end(self.text_bytes(), line.value as int)
                <= text_len.value);
        }
        let line_style = self.style.sub(
            Range { start, end: Byte { value: start.value + llen.value } },
        );
        let chunks = line_style.chunks_per_font_face(llen.value);
        proof {
            let s = self.text_bytes();
            let l = line.value as int;
            assert forall|k: int, i: int|
                0 <= k < chunks@.len() && chunks@[k].range.start.value <= i
                    < chunks@[k].range.end.value implies #[trigger] self.spec_style().face_at(
                i + line_start(s, l),
            ) == (#[trigger] chunks@[k]).header by {
                assert(line_style.face_at(i) == chunks@[k].header);
                assert(0 <= i < llen.value);
                assert(line_style.face_at(i) == self.spec_style().face_at(i + start.value));
            }
        }
        chunks
    }

    /// Whether a cluster table is well formed for a line of `llen` content
    /// bytes: non-empty, starting at zero, strictly increasing, within the
    /// line.
    fn table_ok(cs: &Vec<usize>, llen: usize) -> (r: bool)
        ensures
            r == ({
                let s = cs@.map(|q: int, c: usize| c as int);
                s.len() > 0 && s[0] == 0 && (forall|k: int|
                    0 <= k < s.len() ==> 0 <= #[trigger] s[k] < llen) && (forall|k: int|
                    0 < k < s.len() ==> s[k - 1] < #[trigger] s[k])
            }),
    {
        let ghost s = cs@.map(|q: int, c: usize| c as int);
        if cs.len() == 0 {
            return false;
        }
        if !(cs[0] == 0 && cs[0] < llen) {
            return false;
        }
        let mut k: usize = 1;
        loop
            invariant
                1 <= k <= cs@.len(),
                s == cs@.map(|q: int, c: usize| c as int),
                s.len() > 0 && s[0] == 0,
                forall|q: int| 0 <= q < k ==> 0 <= #[trigger] s[q] < llen,
                forall|q: int| 0 < q < k ==> s[q - 1] < #[trigger] s[q],
            ensures
                k <= cs@.len(),
                k < cs@.len() ==> !(s[k as int - 1] < s[k as int] && s[k as int] < llen),
                k == cs@.len() ==> (forall|q: int| 0 <= q < s.len() ==> 0 <= #[trigger] s[q] < llen)
                    && (forall|q: int| 0 < q < s.len() ==> s[q - 1] < #[trigger] s[q]),
            decreases cs@.len() - k,
        {
            if k == cs.len() {
                break ;
            }
            if !(cs[k - 1] < cs[k] && cs[k] < llen) {
                break ;
            }
            k = k + 1;
        }
        k == cs.len()
    }

    /// Install an externally shaped line into the cache. The runs carry
    /// run-relative cluster offsets and each run's starting byte offset
    /// within the line; the cumulative correction applied here makes every
    /// stored cluster a byte offset within the whole line.
    #[verifier::rlimit(100)]
    #[verifier::spinoff_prover]
    pub fn install_shaped_line(
        &mut self,
        line: Line,
        runs: Vec<(Byte, crate::shaped::ShapedGlyphSet)>,
    )
        requires
            old(self).wf(),
            forall|i: int, j: int|
                0 <= i < runs@.len() && 0 <= j < runs@[i].1.glyphs@.len() ==> (
                #[trigger] runs@[i].1.glyphs@[j]).cluster + runs@[i].0.value <= usize::MAX,
        ensures
            final(self).wf(),
            ({
                let l = clamped(line.value as int, last_line_of(old(self).text_bytes()) as int);
                &&& (install_valid(old(self).text_bytes(), l, runs@) ==> ({
                    &&& final(self).spec_cache().contains_key(l)
                    &&& (forall|k: int|
                        k != l ==> (final(self).spec_cache().contains_key(k) <==> old(self).spec_cache().contains_key(k)))
                    &&& (forall|k: int|
                        k != l && #[trigger] final(self).spec_cache().contains_key(k) ==> final(self).spec_cache()[k] == old(self).spec_cache()[k])
                    &&& (runs@.len() == 0 ==> final(self).spec_cache()[l] is Empty)
                    &&& (runs@.len() > 0 ==> final(self).spec_cache()[l] is NonEmpty
                        && crate::shaped::line_clusters(final(self).spec_cache()[l])
                        == shifted_run_clusters(runs@, runs@.len() as int))
                    &&& crate::shaped::wf_shaped(
                        final(self).spec_cache()[l],
                        line_len(old(self).text_bytes(), l),
                    )
                }))
                &&& (!install_valid(old(self).text_bytes(), l, runs@) ==> final(self).spec_cache() == old(self).spec_cache())
            }),
            final(self).text_bytes() == old(self).text_bytes(),
            final(self).spec_selections() == old(self).spec_selections(),
            final(self).spec_history() == old(self).spec_history(),
    {
        let mut sets: Vec<crate::shaped::ShapedGlyphSet> = Vec::new();
        let n = runs.len();
        let ghost runs_seq = runs@;
        let mut runs = runs;
        let mut i: usize = 0;
        while i < n
            invariant
                i <= n,
                n == runs_seq.len(),
                runs@ == runs_seq.subrange(i as int, n as int),
                sets@.len() == i,
                forall|a: int, b: int|
                    0 <= a < runs_seq.len() && 0 <= b < runs_seq[a].1.glyphs@.len() ==> (
                    #[trigger] runs_seq[a].1.glyphs@[b]).cluster + runs_seq[a].0.value
                        <= usize::MAX,
                crate::shaped::sets_clusters(sets@) == shifted_run_clusters(runs_seq, i as int),
            decreases n - i,
        {
            let (offset, set) = runs.remove(0);
            proof {
                assert((offset, set) == runs_seq[i as int]);
                assert(runs_seq.subrange(i as int, n as int).remove(0) =~= runs_seq.subrange(
                    i as int + 1,
                    n as int,
                ));
            }
            let mut glyphs: Vec<crate::shaped::ShapedGlyph> = Vec::new();
            let m = set.glyphs.len();
            let mut j: usize = 0;
            while j < m
                invariant
                    j <= m,
                    m == set.glyphs@.len(),
                    set == runs_seq[i as int].1,
                    offset == runs_seq[i as int].0,
                    0 <= i < runs_seq.len(),
                    forall|a: int, b: int|
                        0 <= a < runs_seq.len() && 0 <= b < runs_seq[a].1.glyphs@.len() ==> (
                        #[trigger] runs_seq[a].1.glyphs@[b]).cluster + runs_seq[a].0.value
                            <= usize::MAX,
                    glyphs@.len() == j,
                    forall|q: int|
                        0 <= q < j ==> (#[trigger] glyphs@[q]).cluster == set.glyphs@[q].cluster
                            + offset.value && glyphs@[q].glyph_id == set.glyphs@[q].glyph_id
                            && glyphs@[q].x_advance == set.glyphs@[q].x_advance
                            && glyphs@[q].y_advance == set.glyphs@[q].y_advance,
                decreases m - j,
            {
                let g = set.glyphs[j];
                glyphs.push(
                    crate::shaped::ShapedGlyph {
                        cluster: g.cluster + offset.value,
                        glyph_id: g.glyph_id,
                        x_advance: g.x_advance,
                        y_advance: g.y_advance,
                    },
                );
                j = j + 1;
            }
            let new_set = crate::shaped::ShapedGlyphSet {
                units_per_em: set.units_per_em,
                ascender: set.ascender,
                descender: set.descender,
                line_gap: set.line_gap,
                non_variable_variations: set.non_variable_variations,
                glyphs,
            };
            proof {
                assert(crate::shaped::set_clusters(new_set) =~= crate::shaped::set_clusters(
                    runs_seq[i as int].1,
                ).map(|q: int, c: int| c + runs_seq[i as int].0.value));
                crate::shaped::lemma_sets_clusters_snoc(sets@, new_set);
            }
            sets.push(new_set);
            proof {
                assert(crate::shaped::sets_clusters(sets@) =~= shifted_run_clusters(
                    runs_seq,
                    i as int + 1,
                ));
            }
            i = i + 1;
        }
        let entry = if n == 0 {
            ShapedLine::Empty { prev_glyph_info: None }
        } else {
            ShapedLine::NonEmpty { glyph_sets: sets }
        };
        let last = self.text.last_line_index();
        let idx = if line.value <= last.value {
            line.value
        } else {
            last.value
        };
        proof {
            if n == 0 {
                assert(crate::shaped::line_clusters(entry) =~= Seq::<int>::empty());
            }
            lemma_line_raw_end_bounds(self.text_bytes(), idx as int);
        }
        // A run set that does not form a well-formed cluster table for the
        // line is refused: the cache keeps what it had, and the fallback
        // shaper serves the line instead.
        let llen = self.text.line_byte_length(Line { value: idx });
        let cs = entry.clusters();
        let valid = if n == 0 {
            llen.value == 0
        } else {
            llen.value > 0 && Self::table_ok(&cs, llen.value)
        };
        proof {
            assert(valid == install_valid(self.text_bytes(), idx as int, runs_seq));
            if valid {
                assert(crate::shaped::wf_shaped(entry, line_len(self.text_bytes(), idx as int)));
            }
        }
        if valid {
            self.shaped_lines.insert(idx, entry);
        }
    }
}

/// Whether externally shaped runs form a well-formed cluster table for the
/// given line: with the cumulative correction applied, the clusters start at
/// zero, increase strictly, and stay within the line's content, and the line
/// is shaped non-empty exactly when it has content.
pub open spec fn install_valid(
    s: Seq<u8>,
    l: int,
    runs: Seq<(Byte, crate::shaped::ShapedGlyphSet)>,
) -> bool {
    let cs = shifted_run_clusters(runs, runs.len() as int);
    &&& (line_len(s, l) == 0 ==> runs.len() == 0)
    &&& (line_len(s, l) > 0 ==> runs.len() > 0 && cs.len() > 0 && cs[0] == 0)
    &&& (forall|k: int| 0 <= k < cs.len() ==> 0 <= #[trigger] cs[k] < line_len(s, l))
    &&& (forall|k: int| 0 < k < cs.len() ==> cs[k - 1] < #[trigger] cs[k])
}

/// The clusters of the first `upto` runs, each shifted by its run's starting
/// byte offset within the line, concatenated.
pub open spec fn shifted_run_clusters(
    runs: Seq<(Byte, crate::shaped::ShapedGlyphSet)>,
    upto: int,
) -> Seq<int>
    decreases upto,
{
    if upto <= 0 {
        Seq::empty()
    } else {
        shifted_run_clusters(runs, upto - 1) + crate::shaped::set_clusters(
            runs[upto - 1].1,
        ).map(|q: int, c: int| c + runs[upto - 1].0.value)
    }
}

/// A single glyph run with default metrics.
fn one_glyph_set(
    glyphs: Vec<crate::shaped::ShapedGlyph>,
    header: NonVariableFaceHeader,
) -> (r: Vec<crate::shaped::ShapedGlyphSet>)
    ensures
        r@.len() == 1,
        r@[0].glyphs@ == glyphs@,
        r@[0].non_variable_variations == header,
{
    let mut sets: Vec<crate::shaped::ShapedGlyphSet> = Vec::new();
    sets.push(
        crate::shaped::ShapedGlyphSet {
            units_per_em: 1000,
            ascender: 800,
            descender: -200,
            line_gap: 0,
            non_variable_variations: header,
            glyphs,
        },
    );
    sets
}


// === Column conversions ===

/// What the built-in fallback shaper guarantees of a line's entry: a
/// well-formed cluster table holding exactly the line's grapheme-cluster
/// starts.
pub open spec fn fallback_shaped(s: Seq<u8>, l: int, entry: ShapedLine) -> bool {
    let cs = crate::shaped::line_clusters(entry);
    &&& crate::shaped::wf_shaped(entry, line_len(s, l))
    &&& (line_len(s, l) > 0 ==> cs.len() > 0 && cs[0] == 0)
    &&& (forall|k: int|
        0 < k < cs.len() ==> crate::rope::is_grapheme_boundary(
            s,
            line_start(s, l) + #[trigger] cs[k],
        ))
    &&& (forall|j: int|
        line_start(s, l) < j < line_start(s, l) + line_len(s, l)
            && crate::rope::is_grapheme_boundary(s, j) ==> cs.contains(j - line_start(s, l)))
}

/// Whether every shaped line one cache holds, the other holds unchanged:
/// conversions only add missing entries, never alter present ones.
pub open spec fn cache_preserves(
    before: Map<int, ShapedLine>,
    after: Map<int, ShapedLine>,
) -> bool {
    forall|k: int|
        #[trigger] before.contains_key(k) ==> after.contains_key(k) && after[k] == before[k]
}

/// Whether the second cache extends the first by conversions alone: present
/// entries are kept unchanged, and every added entry is a fallback shape of
/// its line.
pub open spec fn conversion_cache_ok(
    s: Seq<u8>,
    before: Map<int, ShapedLine>,
    after: Map<int, ShapedLine>,
) -> bool {
    &&& cache_preserves(before, after)
    &&& (forall|k: int|
        #[trigger] after.contains_key(k) && !before.contains_key(k) ==> fallback_shaped(
            s,
            k,
            after[k],
        ))
}

/// Cache extension by conversions composes.
pub proof fn lemma_conversion_cache_ok_trans(
    s: Seq<u8>,
    a: Map<int, ShapedLine>,
    b: Map<int, ShapedLine>,
    c: Map<int, ShapedLine>,
)
    requires
        conversion_cache_ok(s, a, b),
        conversion_cache_ok(s, b, c),
    ensures
        conversion_cache_ok(s, a, c),
{
    assert forall|k: int|
        #[trigger] c.contains_key(k) && !a.contains_key(k) implies fallback_shaped(
        s,
        k,
        c[k],
    ) by {
        if b.contains_key(k) {
            assert(fallback_shaped(s, k, b[k]));
            assert(c[k] == b[k]);
        }
    }
}

/// The absolute byte offset that a column location denotes, resolved through
/// a cache of shaped lines: the line clamped into the text, the column's
/// cluster start (or the line's content length beyond the last glyph)
/// clamped to the line, made absolute and snapped onto a code-point
/// boundary.
pub open spec fn column_location_byte_offset(
    s: Seq<u8>,
    cache: Map<int, ShapedLine>,
    loc: Location<Column, Line>,
) -> int {
    let l = clamped(loc.line.value as int, last_line_of(s) as int);
    let cs = crate::shaped::line_clusters(cache[l]);
    let raw = if loc.offset.value < cs.len() {
        cs[loc.offset.value as int]
    } else {
        line_len(s, l)
    };
    let in_line = clamped(raw, line_len(s, l));
    crate::content::snap_left(s, line_start(s, l) + in_line)
}

/// Round trip of the buffer's column conversions.
///
/// Law: over a well-formed cached glyph table, converting an in-line byte
/// offset that starts a glyph cluster to a column and the column back to an
/// absolute byte offset restores the offset, whenever it is a code-point
/// boundary of the text.
pub proof fn lemma_buffer_column_byte_round_trip(
    s: Seq<u8>,
    cache: Map<int, ShapedLine>,
    line: Line,
    off: int,
)
    requires
        line.value <= last_line_of(s),
        cache.contains_key(line.value as int),
        crate::shaped::wf_shaped(cache[line.value as int], line_len(s, line.value as int)),
        crate::shaped::line_clusters(cache[line.value as int]).contains(off),
        crate::content::is_boundary(s, line_start(s, line.value as int) + off),
        crate::shaped::line_clusters(cache[line.value as int]).len() <= usize::MAX,
    ensures
        ({
            let cs = crate::shaped::line_clusters(cache[line.value as int]);
            let col = crate::shaped::col_of(cs, off);
            0 <= col < cs.len() && column_location_byte_offset(
                s,
                cache,
                Location { line, offset: Column { value: col as usize } },
            ) == line_start(s, line.value as int) + off
        }),
{
    let l = line.value as int;
    let cs = crate::shaped::line_clusters(cache[l]);
    crate::shaped::lemma_column_byte_round_trip(cache[l], line_len(s, l), off);
    let col = crate::shaped::col_of(cs, off);
    assert(cs[col] == off);
    assert(0 <= off < line_len(s, l));
    crate::content::lemma_snap_left_of_boundary(s, line_start(s, l) + off);
}

/// Whether a column value is the one some fallback-shaped table of the line
/// gives the in-line byte offset.
pub open spec fn cursor_column_ok(s: Seq<u8>, l: int, in_line: int, col: int) -> bool {
    exists|entry: ShapedLine|
        #[trigger] fallback_shaped(s, l, entry) && col == crate::shaped::col_of(
            crate::shaped::line_clusters(entry),
            in_line,
        )
}

/// The byte form of a column selection, resolved through a cache of shaped
/// lines.
pub open spec fn bsel_of(
    s: Seq<u8>,
    cache: Map<int, ShapedLine>,
    sel: Selection<Location<Column, Line>>,
) -> Selection<Byte> {
    Selection {
        start: Byte { value: column_location_byte_offset(s, cache, sel.start) as usize },
        end: Byte { value: column_location_byte_offset(s, cache, sel.end) as usize },
        id: sel.id,
    }
}

/// Whether the byte selections carry pairwise distinct identities.
pub open spec fn distinct_byte_ids(sels: Seq<Selection<Byte>>) -> bool {
    forall|i: int, j: int|
        0 <= i < j < sels.len() ==> (#[trigger] sels[i]).id.value != (#[trigger] sels[j]).id.value
}

/// What the batch engine guarantees of the cursor it leaves for change `i`:
/// a cursor with the change's identity, on the line of the insertion's end
/// in the text as it stood after that change, at the column a fallback
/// shaping of that line gives the end of the inserted text.
pub open spec fn batch_cursor_ok(
    s0: Seq<u8>,
    changes: Seq<Change>,
    i: int,
    c: Selection<Location<Column, Line>>,
) -> bool {
    let st = applied_changes(s0, changes, i + 1);
    let cur = changes[i].change.range.start.value + changes[i].change.text@.len();
    let l = newline_count(st, cur) as int;
    &&& c.start == c.end
    &&& c.start.line.value == l
    &&& cursor_column_ok(st, l, cur - line_start(st, l), c.start.offset.value as int)
}

/// How a batch edit's recorded changes relate to the buffer's selections:
/// for some conversion-extension of the cache, each selection's byte form is
/// the conversion formula over it, a single selection's change replaces
/// exactly that byte form's snapped range, and ordered disjoint byte forms
/// are each replaced at their position shifted by the drift accumulated
/// before them.
pub open spec fn edits_linked(
    s0: Seq<u8>,
    cache0: Map<int, ShapedLine>,
    sels: Seq<Selection<Location<Column, Line>>>,
    transform: Option<crate::movement::Transform>,
    changes: Seq<Change>,
) -> bool {
    exists|mid: Map<int, ShapedLine>|
        #[trigger] conversion_cache_ok(s0, cache0, mid) && ({
            let bsels = Seq::new(sels.len(), |i: int| bsel_of(s0, mid, sels[i]));
            &&& (forall|i: int|
                0 <= i < sels.len() ==> mid.contains_key(
                    clamped((#[trigger] sels[i]).start.line.value as int, last_line_of(s0) as int),
                ) && mid.contains_key(
                    clamped(sels[i].end.line.value as int, last_line_of(s0) as int),
                ))
            &&& (sels.len() == 1 && changes.len() == 1 ==> edit_range_spec(
                s0,
                bsels[0],
                transform,
                changes[0].change.range.start.value as int,
                changes[0].change.range.end.value as int,
            ))
            &&& ((transform is None && ordered_disjoint_selections(s0, bsels)) ==> forall|i: int|
                0 <= i < changes.len() ==> (#[trigger] changes[i]).change.range.start.value
                    == bsels[i].start.value + drift_of(changes, i)
                    && changes[i].change.range.end.value == bsels[i].end.value + drift_of(
                    changes,
                    i,
                ))
        })
}

/// The resolved byte offset only reads the cache at the location's line.
proof fn lemma_conversion_stable(
    s: Seq<u8>,
    c1: Map<int, ShapedLine>,
    c2: Map<int, ShapedLine>,
    loc: Location<Column, Line>,
)
    requires
        c1[clamped(loc.line.value as int, last_line_of(s) as int)] == c2[clamped(
            loc.line.value as int,
            last_line_of(s) as int,
        )],
    ensures
        column_location_byte_offset(s, c1, loc) == column_location_byte_offset(s, c2, loc),
{
}

impl BufferModel {
    /// The last column of the given line: the number of glyphs its shaped
    /// form holds.
    pub fn line_last_column(&mut self, line: Line) -> (r: Column)
        requires
            old(self).wf(),
        ensures
            cache_preserves(old(self).spec_cache(), final(self).spec_cache()),
            conversion_cache_ok(
                old(self).text_bytes(),
                old(self).spec_cache(),
                final(self).spec_cache(),
            ),
            final(self).wf(),
            ({
                let l = clamped(line.value as int, last_line_of(old(self).text_bytes()) as int);
                final(self).spec_cache().contains_key(l) && r.value
                    == crate::shaped::line_clusters(final(self).spec_cache()[l]).len()
            }),
            final(self).text_bytes() == old(self).text_bytes(),
            final(self).spec_selections() == old(self).spec_selections(),
            final(self).spec_history() == old(self).spec_history(),
            format_eq(final(self).spec_style(), old(self).spec_style()),
    {
        let shaped = self.with_shaped_line(line);
        Column { value: shaped.glyph_count() }
    }

    /// The last column of the last line.
    pub fn last_line_last_column(&mut self) -> (r: Column)
        requires
            old(self).wf(),
        ensures
            cache_preserves(old(self).spec_cache(), final(self).spec_cache()),
            conversion_cache_ok(
                old(self).text_bytes(),
                old(self).spec_cache(),
                final(self).spec_cache(),
            ),
            final(self).wf(),
            ({
                let l = last_line_of(old(self).text_bytes()) as int;
                final(self).spec_cache().contains_key(l) && r.value
                    == crate::shaped::line_clusters(final(self).spec_cache()[l]).len()
            }),
            final(self).text_bytes() == old(self).text_bytes(),
            final(self).spec_selections() == old(self).spec_selections(),
            final(self).spec_history() == old(self).spec_history(),
    {
        let last = self.text.last_line_index();
        self.line_last_column(last)
    }

    /// The last location of the last line.
    pub fn last_line_last_location(&mut self) -> (r: Location<Column, Line>)
        requires
            old(self).wf(),
        ensures
            cache_preserves(old(self).spec_cache(), final(self).spec_cache()),
            conversion_cache_ok(
                old(self).text_bytes(),
                old(self).spec_cache(),
                final(self).spec_cache(),
            ),
            final(self).wf(),
            r.line.value == last_line_of(old(self).text_bytes()),
            ({
                let l = last_line_of(old(self).text_bytes()) as int;
                final(self).spec_cache().contains_key(l) && r.offset.value
                    == crate::shaped::line_clusters(final(self).spec_cache()[l]).len()
            }),
            final(self).text_bytes() == old(self).text_bytes(),
            final(self).spec_selections() == old(self).spec_selections(),
            final(self).spec_history() == old(self).spec_history(),
    {
        let line = self.text.last_line_index();
        let offset = self.line_last_column(line);
        Location { line, offset }
    }

    /// The location one column to the left, moving to the previous line's
    /// end when the location stands at a line start, as far as the column
    /// kept in the location allows.
    pub fn prev_column(&mut self, location: Location<Column, Line>) -> (r: Location<Column, Line>)
        requires
            old(self).wf(),
        ensures
            cache_preserves(old(self).spec_cache(), final(self).spec_cache()),
            conversion_cache_ok(
                old(self).text_bytes(),
                old(self).spec_cache(),
                final(self).spec_cache(),
            ),
            final(self).wf(),
            final(self).text_bytes() == old(self).text_bytes(),
            final(self).spec_selections() == old(self).spec_selections(),
            final(self).spec_history() == old(self).spec_history(),
            r.line.value <= location.line.value,
            ({
                let s = old(self).text_bytes();
                let l = clamped(location.line.value as int, last_line_of(s) as int);
                let cnt = crate::shaped::line_clusters(final(self).spec_cache()[l]).len() as int;
                let cur = vstd::math::min(location.offset.value as int, cnt);
                &&& final(self).spec_cache().contains_key(l)
                &&& (cur > 0 ==> r.line == location.line && r.offset.value == cur - 1)
                &&& (cur == 0 && location.line.value > 0 ==> ({
                    let l2 = clamped(location.line.value - 1, last_line_of(s) as int);
                    final(self).spec_cache().contains_key(l2) && r.line.value
                        == location.line.value - 1 && r.offset.value
                        == crate::shaped::line_clusters(final(self).spec_cache()[l2]).len()
                }))
                &&& (cur == 0 && location.line.value == 0 ==> r == location)
            }),
    {
        let ghost s = self.text_bytes();
        let line_last_column = self.line_last_column(location.line);
        let current_column = if location.offset.value <= line_last_column.value {
            location.offset
        } else {
            line_last_column
        };
        if current_column.value > 0 {
            location.with_offset(Column { value: current_column.value - 1 })
        } else if location.line.value > 0 {
            let ghost cache0 = self.spec_cache();
            let ghost l = clamped(location.line.value as int, last_line_of(s) as int);
            let location = location.dec_line();
            let last = self.line_last_column(location.line);
            proof {
                assert(self.spec_cache().contains_key(l) && self.spec_cache()[l] == cache0[l]);
            }
            location.with_offset(last)
        } else {
            location
        }
    }

    /// The location one column to the right, moving to the next line's start
    /// at a line's end.
    pub fn next_column(&mut self, location: Location<Column, Line>) -> (r: Location<Column, Line>)
        requires
            old(self).wf(),
            location.offset.value < usize::MAX,
            location.line.value < usize::MAX,
        ensures
            cache_preserves(old(self).spec_cache(), final(self).spec_cache()),
            conversion_cache_ok(
                old(self).text_bytes(),
                old(self).spec_cache(),
                final(self).spec_cache(),
            ),
            final(self).wf(),
            final(self).text_bytes() == old(self).text_bytes(),
            final(self).spec_selections() == old(self).spec_selections(),
            final(self).spec_history() == old(self).spec_history(),
            r.line.value >= location.line.value,
            ({
                let s = old(self).text_bytes();
                let l = clamped(location.line.value as int, last_line_of(s) as int);
                let cnt = crate::shaped::line_clusters(final(self).spec_cache()[l]).len() as int;
                let desired = location.offset.value + 1;
                &&& final(self).spec_cache().contains_key(l)
                &&& (desired <= cnt ==> r.line == location.line && r.offset.value == desired)
                &&& (desired > cnt && location.line.value < last_line_of(s) ==> r.line.value
                    == location.line.value + 1 && r.offset.value == 0)
                &&& (desired > cnt && location.line.value >= last_line_of(s) ==> r == location)
            }),
    {
        let desired_column = Column { value: location.offset.value + 1 };
        let line_last = self.line_last_column(location.line);
        if desired_column.value <= line_last.value {
            location.with_offset(desired_column)
        } else {
            let last_line = self.text.last_line_index();
            if location.line.value < last_line.value {
                location.inc_line().zero_offset()
            } else {
                location
            }
        }
    }

    /// The byte location of a column location: the line (snapped into the
    /// text) and the in-line byte offset of the column's glyph cluster
    /// (clamped to the line's content length).
    pub fn byte_location_of_column_location(&mut self, location: Location<Column, Line>) -> (r:
        Location<Byte, Line>)
        requires
            old(self).wf(),
        ensures
            cache_preserves(old(self).spec_cache(), final(self).spec_cache()),
            conversion_cache_ok(
                old(self).text_bytes(),
                old(self).spec_cache(),
                final(self).spec_cache(),
            ),
            final(self).wf(),
            final(self).text_bytes() == old(self).text_bytes(),
            final(self).spec_selections() == old(self).spec_selections(),
            final(self).spec_history() == old(self).spec_history(),
            format_eq(final(self).spec_style(), old(self).spec_style()),
            ({
                let s = old(self).text_bytes();
                let l = clamped(location.line.value as int, last_line_of(s) as int);
                let cs = crate::shaped::line_clusters(final(self).spec_cache()[l]);
                r.line.value == l && final(self).spec_cache().contains_key(l)
                    && r.offset.value == clamped(
                    if location.offset.value < cs.len() {
                        cs[location.offset.value as int]
                    } else {
                        line_len(s, l)
                    },
                    line_len(s, l),
                ) && 0 <= r.offset.value <= line_len(s, l)
            }),
    {
        let ghost s = self.text_bytes();
        let last = self.text.last_line_index();
        let line = if location.line.value <= last.value {
            location.line
        } else {
            last
        };
        proof {
            lemma_line_raw_end_bounds(s, line.value as int);
        }
        let llen = self.text.line_byte_length(line);
        let in_line = {
            let shaped = self.with_shaped_line(line);
            crate::shaped::in_line_byte_of_column(shaped, location.offset, llen)
        };
        let off = if in_line.value <= llen.value {
            in_line
        } else {
            llen
        };
        Location { line, offset: off }
    }

    /// The column location of a byte location: the line (snapped into the
    /// text) and the column of the glyph cluster at (or just after) the
    /// in-line byte offset.
    pub fn column_location_of_byte_location(&mut self, location: Location<Byte, Line>) -> (r:
        Location<Column, Line>)
        requires
            old(self).wf(),
        ensures
            cache_preserves(old(self).spec_cache(), final(self).spec_cache()),
            conversion_cache_ok(
                old(self).text_bytes(),
                old(self).spec_cache(),
                final(self).spec_cache(),
            ),
            final(self).wf(),
            final(self).text_bytes() == old(self).text_bytes(),
            final(self).spec_selections() == old(self).spec_selections(),
            final(self).spec_history() == old(self).spec_history(),
            format_eq(final(self).spec_style(), old(self).spec_style()),
            ({
                let s = old(self).text_bytes();
                let l = clamped(location.line.value as int, last_line_of(s) as int);
                let cs = crate::shaped::line_clusters(final(self).spec_cache()[l]);
                r.line.value == l && final(self).spec_cache().contains_key(l)
                    && r.offset.value == crate::shaped::col_of(cs, location.offset.value as int)
            }),
    {
        let last = self.text.last_line_index();
        let line = if location.line.value <= last.value {
            location.line
        } else {
            last
        };
        let col = {
            let shaped = self.with_shaped_line(line);
            crate::shaped::column_of_in_line_byte(shaped, location.offset)
        };
        Location { line, offset: col }
    }

    /// The absolute byte offset of a column location, snapped into the text
    /// and onto a code-point boundary.
    pub fn byte_offset_of_column_location_snapped(&mut self, location: Location<Column, Line>)
        -> (r: Byte)
        requires
            old(self).wf(),
        ensures
            cache_preserves(old(self).spec_cache(), final(self).spec_cache()),
            conversion_cache_ok(
                old(self).text_bytes(),
                old(self).spec_cache(),
                final(self).spec_cache(),
            ),
            final(self).wf(),
            final(self).text_bytes() == old(self).text_bytes(),
            final(self).spec_selections() == old(self).spec_selections(),
            final(self).spec_history() == old(self).spec_history(),
            format_eq(final(self).spec_style(), old(self).spec_style()),
            r.value <= old(self).text_bytes().len(),
            crate::content::is_boundary(old(self).text_bytes(), r.value as int),
            final(self).spec_cache().contains_key(
                clamped(location.line.value as int, last_line_of(old(self).text_bytes()) as int),
            ),
            r.value == column_location_byte_offset(
                old(self).text_bytes(),
                final(self).spec_cache(),
                location,
            ),
    {
        let ghost s = self.text_bytes();
        let loc = self.byte_location_of_column_location(location);
        proof {
            lemma_line_raw_end_bounds(s, loc.line.value as int);
            lemma_line_start(s, loc.line.value as int);
        }
        let text_len = self.text.byte_size();
        let start = self.text.byte_offset_of_line_index_unchecked(loc.line);
        proof {
            assert(start.value + loc.offset.value <= line_end(s, loc.line.value as int)
                <= text_len.value);
        }
        let abs = Byte { value: start.value + loc.offset.value };
        self.text.snap_offset_to_boundary(abs)
    }

    /// The column location of an absolute byte offset, snapped into the
    /// text.
    pub fn column_location_of_byte_offset_snapped(&mut self, offset: Byte) -> (r: Location<
        Column,
        Line,
    >)
        requires
            old(self).wf(),
        ensures
            cache_preserves(old(self).spec_cache(), final(self).spec_cache()),
            conversion_cache_ok(
                old(self).text_bytes(),
                old(self).spec_cache(),
                final(self).spec_cache(),
            ),
            final(self).wf(),
            final(self).text_bytes() == old(self).text_bytes(),
            final(self).spec_selections() == old(self).spec_selections(),
            final(self).spec_history() == old(self).spec_history(),
            format_eq(final(self).spec_style(), old(self).spec_style()),
            r.line.value <= last_line_of(old(self).text_bytes()),
            ({
                let s = old(self).text_bytes();
                let off = crate::content::snap_left(s, clamped(offset.value as int, s.len() as int));
                let l = newline_count(s, off) as int;
                &&& r.line.value == l
                &&& final(self).spec_cache().contains_key(l)
                &&& r.offset.value == crate::shaped::col_of(
                    crate::shaped::line_clusters(final(self).spec_cache()[l]),
                    off - line_start(s, l),
                )
            }),
    {
        let byte_loc = self.text.location_of_byte_offset_snapped(offset);
        proof {
            let s = self.text_bytes();
            let off = crate::content::snap_left(s, clamped(offset.value as int, s.len() as int));
            crate::content::lemma_snap_left_is_boundary(
                s,
                clamped(offset.value as int, s.len() as int),
            );
            crate::content::lemma_offset_within_its_line(s, off);
            crate::content::lemma_newline_count_monotone(s, off, s.len() as int);
        }
        self.column_location_of_byte_location(byte_loc)
    }

    /// The current selections in absolute byte coordinates, snapped into the
    /// text and onto code-point boundaries, in recency order and with their
    /// identities kept.
    pub fn byte_selections(&mut self) -> (r: Vec<Selection<Byte>>)
        requires
            old(self).wf(),
        ensures
            final(self).wf(),
            final(self).text_bytes() == old(self).text_bytes(),
            final(self).spec_selections() == old(self).spec_selections(),
            final(self).spec_history() == old(self).spec_history(),
            format_eq(final(self).spec_style(), old(self).spec_style()),
            conversion_cache_ok(
                old(self).text_bytes(),
                old(self).spec_cache(),
                final(self).spec_cache(),
            ),
            r@.len() == old(self).spec_selections().len(),
            forall|i: int|
                0 <= i < r@.len() ==> (#[trigger] r@[i]).id == old(self).spec_selections()[i].id,
            forall|i: int|
                0 <= i < r@.len() ==> (#[trigger] r@[i]).start.value <= old(self).text_bytes().len() && r@[i].end.value <= old(self).text_bytes().len()
                    && crate::content::is_boundary(old(self).text_bytes(), r@[i].start.value as int)
                    && crate::content::is_boundary(old(self).text_bytes(), r@[i].end.value as int),
            forall|i: int|
                0 <= i < r@.len() ==> (#[trigger] r@[i]).start.value
                    == column_location_byte_offset(
                    old(self).text_bytes(),
                    final(self).spec_cache(),
                    old(self).spec_selections()[i].start,
                ) && r@[i].end.value == column_location_byte_offset(
                    old(self).text_bytes(),
                    final(self).spec_cache(),
                    old(self).spec_selections()[i].end,
                ),
            forall|i: int|
                0 <= i < r@.len() ==> final(self).spec_cache().contains_key(
                    clamped(
                        (#[trigger] old(self).spec_selections()[i]).start.line.value as int,
                        last_line_of(old(self).text_bytes()) as int,
                    ),
                ) && final(self).spec_cache().contains_key(
                    clamped(
                        old(self).spec_selections()[i].end.line.value as int,
                        last_line_of(old(self).text_bytes()) as int,
                    ),
                ),
    {
        let n = self.selection.len();
        let mut out: Vec<Selection<Byte>> = Vec::new();
        let mut i: usize = 0;
        while i < n
            invariant
                i <= n,
                self.wf(),
                n == self.spec_selections().len(),
                self.text_bytes() == old(self).text_bytes(),
                self.spec_selections() == old(self).spec_selections(),
                self.spec_history() == old(self).spec_history(),
                format_eq(self.spec_style(), old(self).spec_style()),
                conversion_cache_ok(
                    old(self).text_bytes(),
                    old(self).spec_cache(),
                    self.spec_cache(),
                ),
                out@.len() == i,
                forall|j: int|
                    0 <= j < i ==> (#[trigger] out@[j]).id == old(self).spec_selections()[j].id,
                forall|j: int|
                    0 <= j < i ==> (#[trigger] out@[j]).start.value <= old(self).text_bytes().len() && out@[j].end.value <= old(self).text_bytes().len()
                        && crate::content::is_boundary(
                        old(self).text_bytes(),
                        out@[j].start.value as int,
                    ) && crate::content::is_boundary(
                        old(self).text_bytes(),
                        out@[j].end.value as int,
                    ),
                forall|j: int|
                    0 <= j < i ==> self.spec_cache().contains_key(
                        clamped(
                            (#[trigger] old(self).spec_selections()[j]).start.line.value as int,
                            last_line_of(old(self).text_bytes()) as int,
                        ),
                    ) && self.spec_cache().contains_key(
                        clamped(
                            old(self).spec_selections()[j].end.line.value as int,
                            last_line_of(old(self).text_bytes()) as int,
                        ),
                    ),
                forall|j: int|
                    0 <= j < i ==> (#[trigger] out@[j]).start.value
                        == column_location_byte_offset(
                        old(self).text_bytes(),
                        self.spec_cache(),
                        old(self).spec_selections()[j].start,
                    ) && out@[j].end.value == column_location_byte_offset(
                        old(self).text_bytes(),
                        self.spec_cache(),
                        old(self).spec_selections()[j].end,
                    ),
            decreases n - i,
        {
            let ghost s = old(self).text_bytes();
            let ghost cache0 = self.spec_cache();
            let sel = self.selection.get(i);
            let start = self.byte_offset_of_column_location_snapped(sel.start);
            let ghost cache1 = self.spec_cache();
            let end = self.byte_offset_of_column_location_snapped(sel.end);
            proof {
                // Conversions only add missing cache entries, so every entry
                // an earlier conversion read is still there, unchanged.
                assert forall|k: int| #[trigger] cache0.contains_key(k) implies self.spec_cache().contains_key(k) && self.spec_cache()[k] == cache0[k] by {
                    assert(cache1.contains_key(k) && cache1[k] == cache0[k]);
                }
                assert forall|j: int| 0 <= j < i implies (#[trigger] out@[j]).start.value
                    == column_location_byte_offset(
                    s,
                    self.spec_cache(),
                    old(self).spec_selections()[j].start,
                ) && out@[j].end.value == column_location_byte_offset(
                    s,
                    self.spec_cache(),
                    old(self).spec_selections()[j].end,
                ) by {
                    lemma_conversion_stable(
                        s,
                        cache0,
                        self.spec_cache(),
                        old(self).spec_selections()[j].start,
                    );
                    lemma_conversion_stable(
                        s,
                        cache0,
                        self.spec_cache(),
                        old(self).spec_selections()[j].end,
                    );
                }
                lemma_conversion_stable(s, cache1, self.spec_cache(), sel.start);
            }
            out.push(Selection { start, end, id: sel.id });
            i = i + 1;
        }
        out
    }
}


// === The edit engine ===

impl BufferModel {
    /// The byte range an edit of the given selection replaces: the selection
    /// clamped into the text, a bare cursor first expanded by the movement
    /// rule if one is supplied, the ends put in order and snapped onto
    /// code-point boundaries.
    #[verifier::rlimit(100)]
    fn snapped_edit_range(
        &self,
        selection: Selection<Byte>,
        transform: Option<crate::movement::Transform>,
    ) -> (r: Range<Byte>)
        ensures
            ({
                let s0 = self.text_bytes();
                &&& 0 <= r.start.value <= r.end.value <= s0.len()
                &&& crate::content::is_boundary(s0, r.start.value as int)
                &&& crate::content::is_boundary(s0, r.end.value as int)
                &&& edit_range_spec(
                    s0,
                    selection,
                    transform,
                    r.start.value as int,
                    r.end.value as int,
                )
            }),
    {
        let ghost s0 = self.text_bytes();
        let len = self.text.byte_size();
        let a0 = if selection.start.value <= len.value {
            selection.start.value
        } else {
            len.value
        };
        let b0 = if selection.end.value <= len.value {
            selection.end.value
        } else {
            len.value
        };
        let mut ta = a0;
        let mut tb = b0;
        match transform {
            Some(tr) => {
                if a0 == b0 {
                    match tr {
                        crate::movement::Transform::Left => {
                            ta = crate::movement::prev_grapheme_or_same(
                                &self.text,
                                Byte { value: a0 },
                            ).value;
                        },
                        crate::movement::Transform::Right => {
                            tb = crate::movement::next_grapheme_or_same(
                                &self.text,
                                Byte { value: b0 },
                            ).value;
                        },
                        crate::movement::Transform::LeftWord => {
                            ta = crate::movement::prev_word_boundary(
                                &self.text,
                                Byte { value: a0 },
                            ).value;
                        },
                        crate::movement::Transform::RightWord => {
                            tb = crate::movement::next_word_boundary(
                                &self.text,
                                Byte { value: b0 },
                            ).value;
                        },
                    }
                }
            },
            None => {},
        }
        let (mn, mx) = if ta <= tb {
            (ta, tb)
        } else {
            (tb, ta)
        };
        let lo_s = self.text.snap_offset_to_boundary(Byte { value: mn });
        let hi_s = self.text.snap_offset_to_boundary(Byte { value: mx });
        proof {
            if crate::content::is_boundary(s0, mn as int) {
                crate::content::lemma_snap_left_of_boundary(s0, mn as int);
                crate::content::lemma_snap_left_lower_bound(s0, mx as int, mn as int);
            }
            if crate::content::is_boundary(s0, mx as int) {
                crate::content::lemma_snap_left_of_boundary(s0, mx as int);
            }
        }
        if lo_s.value <= hi_s.value {
            Range { start: lo_s, end: hi_s }
        } else {
            Range { start: hi_s, end: lo_s }
        }
    }

    /// Apply one replacement: replace the (clamped, ordered,
    /// boundary-snapped) byte range of the given selection with the given
    /// text, expanding a bare cursor first when a movement rule is supplied,
    /// as a delete requires. The style store shifts with the text, and the
    /// shaped-line cache keeps the lines before the edit, drops the edited
    /// lines, and re-indexes the lines after it. The result records the
    /// change, a cursor with the selection's identity at the end of the
    /// inserted text, and the byte drift of this replacement.
    #[verifier::rlimit(100)]
    #[verifier::spinoff_prover]
    pub fn modify_selection(
        &mut self,
        selection: Selection<Byte>,
        text: &Text,
        transform: Option<crate::movement::Transform>,
    ) -> (r: Modification)
        requires
            old(self).wf(),
        ensures
            final(self).wf(),
            r.changes@.len() == 1,
            r.selection_group@.len() == 1,
            final(self).spec_selections() == old(self).spec_selections(),
            final(self).spec_history() == old(self).spec_history(),
            final(self).spec_next_id() == old(self).spec_next_id(),
            ({
                let s0 = old(self).text_bytes();
                let len0 = s0.len() as int;
                let ins = text@;
                let ch = r.changes@[0];
                let lo = ch.change.range.start.value as int;
                let hi = ch.change.range.end.value as int;
                let start_line = newline_count(s0, lo) as int;
                let end_old = newline_count(s0, hi) as int;
                let cursor = lo + ins.len();
                let s1 = final(self).text_bytes();
                let end_new = newline_count(s1, cursor) as int;
                let diff = end_new - end_old;
                &&& ch.change.text@ == ins
                &&& 0 <= lo <= hi <= len0
                &&& crate::content::is_boundary(s0, lo)
                &&& crate::content::is_boundary(s0, hi)
                &&& s1 == s0.subrange(0, lo) + ins + s0.subrange(hi, len0)
                &&& r.byte_offset.value == ins.len() - (hi - lo)
                &&& ch.change_range.start.value == start_line
                &&& ch.change_range.end.value == end_old
                &&& ch.line_diff.value == diff
                &&& r.selection_group@[0].id == selection.id
                &&& r.selection_group@[0].start == r.selection_group@[0].end
                &&& r.selection_group@[0].start.line.value == end_new
                &&& cursor_column_ok(
                    s1,
                    end_new,
                    cursor - line_start(s1, end_new),
                    r.selection_group@[0].start.offset.value as int,
                )
                &&& ch.selection.id == selection.id
                &&& ch.selection.start == ch.selection.end
                &&& (forall|k: int|
                    k < start_line ==> (final(self).spec_cache().contains_key(k) <==> old(self).spec_cache().contains_key(k)))
                &&& (forall|k: int|
                    k < start_line && #[trigger] final(self).spec_cache().contains_key(k)
                        ==> final(self).spec_cache()[k] == old(self).spec_cache()[k])
                &&& (forall|k: int|
                    start_line <= k <= end_new ==> !final(self).spec_cache().contains_key(k))
                &&& (forall|k: int|
                    #[trigger] old(self).spec_cache().contains_key(k) && k > end_old ==> final(self).spec_cache().contains_key(k + diff) && final(self).spec_cache()[k + diff]
                        == old(self).spec_cache()[k])
                &&& (forall|k: int|
                    #[trigger] final(self).spec_cache().contains_key(k) && k > end_new ==> old(self).spec_cache().contains_key(k - diff) && k - diff > end_old)
                &&& edit_range_spec(s0, selection, transform, lo, hi)
                &&& (forall|i: int|
                    0 <= i < lo ==> #[trigger] final(self).spec_style().resolved(i) == old(self).spec_style().resolved(i))
                &&& (forall|i: int|
                    cursor <= i ==> #[trigger] final(self).spec_style().resolved(i) == old(self).spec_style().resolved(i - ins.len() + (hi - lo)))
            }),
    {
        let ghost s0 = self.text_bytes();
        let len = self.text.byte_size();
        let range = self.snapped_edit_range(selection, transform);
        let (lo, hi) = (range.start, range.end);
        let start_line = self.text.line_index_of_byte_offset_unchecked(lo);
        let end_old = self.text.line_index_of_byte_offset_unchecked(hi);
        let ghost last_old = last_line_of(s0) as int;
        let text_size = text.byte_size();
        // Splice the text.
        self.text.replace(Range { start: lo, end: hi }, text);
        let ghost s1 = self.text_bytes();
        let new_len = self.text.byte_size();
        proof {
            assert(s1.len() == s0.len() - (hi.value - lo.value) + text@.len());
        }
        // Shift the style spans with the text.
        let old_len = len;
        self.style.set_resize_with_default(Range { start: lo, end: hi }, text_size.value, old_len.value);
        // The cursor lands at the end of the inserted text; its line is the
        // replaced range's start line plus the lines the inserted text adds.
        let cursor = Byte { value: lo.value + text_size.value };
        let ins_lines = text.last_line_index();
        let last_new = self.text.last_line_index();
        proof {
            crate::content::lemma_splice_newline_counts(
                s0,
                lo.value as int,
                hi.value as int,
                text@,
            );
            crate::content::lemma_newline_count_prefix(s1, s0, lo.value as int);
            crate::content::lemma_newline_count_monotone(s1, cursor.value as int, s1.len() as int);
            crate::content::lemma_newline_count_monotone(s0, lo.value as int, hi.value as int);
            assert(start_line.value + ins_lines.value == newline_count(s1, cursor.value as int));
            assert(start_line.value + ins_lines.value <= last_new.value);
        }
        let end_new = Line { value: start_line.value + ins_lines.value };
        proof {
            assert(last_new.value == last_old + (end_new.value - end_old.value));
        }
        let ghost diff_spec = end_new.value as int - end_old.value as int;
        // Drop the edited lines' cached shapes, then re-index the cached
        // shapes of the lines after the edit.
        self.shaped_lines.remove_range(start_line.value, end_old.value);
        let line_diff = LineDiff {
            value: end_new.value as i128 - end_old.value as i128,
        };
        proof {
            assert(forall|k: int|
                #[trigger] self.shaped_lines@.contains_key(k) && k > end_old.value ==> 0 <= k
                    + line_diff.value <= usize::MAX);
        }
        self.shaped_lines.shift_above(end_old.value, line_diff);
        // Clamp the view to the new text.
        if self.first_view_line.value > last_new.value {
            self.first_view_line = last_new;
        }
        // The resulting cursor, in column coordinates, over a fresh shaping
        // of its line.
        proof {
            crate::content::lemma_offset_within_its_line(s1, cursor.value as int);
        }
        let new_line_start = self.text.byte_offset_of_line_index_unchecked(end_new);
        let cur_in_line = Byte { value: cursor.value - new_line_start.value };
        let shaped = self.shape_line(end_new);
        let col = crate::shaped::column_of_in_line_byte(&shaped, cur_in_line);
        proof {
            assert(fallback_shaped(s1, end_new.value as int, shaped));
            assert(cursor_column_ok(
                s1,
                end_new.value as int,
                cursor.value - line_start(s1, end_new.value as int),
                col.value as int,
            ));
        }
        let result_loc = Location { line: end_new, offset: col };
        let view_line = self.view_line_of_line_snapped(end_new);
        let view_loc = Location { line: view_line, offset: col };
        let change = Change {
            change: crate::text::Change {
                range: Range { start: lo, end: hi },
                text: text.clone(),
            },
            change_range: Range { start: start_line, end: end_old },
            line_diff,
            selection: Selection { start: view_loc, end: view_loc, id: selection.id },
        };
        let mut changes: Vec<Change> = Vec::new();
        changes.push(change);
        let byte_offset = ByteDiff {
            value: text_size.value as i128 - (hi.value - lo.value) as i128,
        };
        Modification {
            changes,
            selection_group: Group::from_selection(
                Selection { start: result_loc, end: result_loc, id: selection.id },
            ),
            byte_offset,
        }
    }
}


/// Whether a position can serve as a splice point that survives edits before
/// it: it is the end of the text, or a position whose byte starts a code
/// point.
pub open spec fn strict_boundary(s: Seq<u8>, p: int) -> bool {
    0 <= p <= s.len() && (p == s.len() || !crate::content::is_continuation(s[p]))
}

/// Whether byte selections are ordered and pairwise disjoint, lie within the
/// text, and sit on splice points: the inputs for which the edit engine's
/// drift arithmetic is exact.
pub open spec fn ordered_disjoint_selections(s: Seq<u8>, sels: Seq<Selection<Byte>>) -> bool {
    &&& (forall|i: int|
        0 <= i < sels.len() ==> (#[trigger] sels[i]).start.value <= sels[i].end.value <= s.len())
    &&& (forall|i: int|
        0 <= i < sels.len() ==> strict_boundary(s, (#[trigger] sels[i]).start.value as int)
            && strict_boundary(s, sels[i].end.value as int))
    &&& (forall|i: int|
        0 < i < sels.len() ==> (#[trigger] sels[i]).start.value >= sels[i - 1].end.value)
}

impl BufferModel {
    /// Take one snapshot of the text, the style and the selections, to be
    /// restored by undo.
    pub fn commit_history(&mut self)
        requires
            old(self).wf(),
        ensures
            final(self).wf(),
            final(self).spec_history().len() == old(self).spec_history().len() + 1,
            forall|i: int|
                0 <= i < old(self).spec_history().len() ==> final(self).spec_history()[i] == old(self).spec_history()[i],
            ({
                let frame = final(self).spec_history().last();
                frame.text@ == old(self).text_bytes() && format_eq(
                    &frame.style,
                    old(self).spec_style(),
                ) && frame.selection@ == old(self).spec_selections()
            }),
            final(self).text_bytes() == old(self).text_bytes(),
            final(self).spec_selections() == old(self).spec_selections(),
            final(self).spec_cache() == old(self).spec_cache(),
            format_eq(final(self).spec_style(), old(self).spec_style()),
            final(self).spec_next_id() == old(self).spec_next_id(),
            final(self).spec_first_view_line() == old(self).spec_first_view_line(),
    {
        let frame = HistoryFrame {
            text: self.text.clone(),
            style: self.style.duplicate(),
            selection: self.selection.clone(),
        };
        proof {
            assert(frame.style.bounded(frame.text@.len() as int));
            assert(unique_ids(frame.selection@));
        }
        self.history.undo_stack.push(frame);
        proof {
            let frames = self.history.frames();
            let ghost n = frames.len();
            assert forall|i: int| 0 <= i < n implies ({
                let f = #[trigger] frames[i];
                f.style.bounded(f.text@.len() as int) && unique_ids(f.selection@) && forall|q: int|
                    0 <= q < f.selection@.len() ==> (#[trigger] f.selection@[q]).id.value
                        < self.next_selection_id.value
            }) by {
                if i < n - 1 {
                    assert(frames[i] == old(self).spec_history()[i]);
                }
            }
        }
    }

    /// Pop the most recent snapshot and restore its text and style; the
    /// restored selection is returned for the caller to install. The
    /// shaped-line cache is dropped, since the restored text invalidates it.
    pub fn undo(&mut self) -> (r: Option<Group>)
        requires
            old(self).wf(),
        ensures
            final(self).wf(),
            old(self).spec_history().len() == 0 ==> r is None && final(self).text_bytes() == old(self).text_bytes() && final(self).spec_history() == old(self).spec_history() && format_eq(
                final(self).spec_style(),
                old(self).spec_style(),
            ),
            old(self).spec_history().len() > 0 ==> ({
                let frame = old(self).spec_history().last();
                &&& final(self).text_bytes() == frame.text@
                &&& format_eq(final(self).spec_style(), &frame.style)
                &&& final(self).spec_history() == old(self).spec_history().drop_last()
                &&& final(self).spec_cache() == Map::<int, ShapedLine>::empty()
                &&& final(self).spec_first_view_line() == clamped(
                    old(self).spec_first_view_line(),
                    last_line_of(frame.text@) as int,
                )
                &&& match r {
                    Some(g) => g@ == frame.selection@ && unique_ids(g@) && forall|q: int|
                        0 <= q < g@.len() ==> (#[trigger] g@[q]).id.value < usize::MAX,
                    None => false,
                }
            }),
            final(self).spec_selections() == old(self).spec_selections(),
            final(self).spec_next_id() == old(self).spec_next_id(),
    {
        proof {
            if old(self).spec_history().len() > 0 {
                let n = old(self).spec_history().len();
                assert(old(self).spec_history()[n - 1] == old(self).spec_history().last());
            }
        }
        match self.history.undo_stack.pop() {
            Some(frame) => {
                let HistoryFrame { text, style, selection } = frame;
                self.text = text;
                self.style = style;
                self.shaped_lines.clear();
                let last = self.text.last_line_index();
                if self.first_view_line.value > last.value {
                    self.first_view_line = last;
                }
                proof {
                    let frames = self.history.frames();
                    assert forall|i: int| 0 <= i < frames.len() implies #[trigger] frames[i]
                        == old(self).spec_history()[i] by {}
                }
                Some(selection)
            },
            None => None,
        }
    }

    /// Apply one replacement per byte selection, in order, drifting each
    /// later selection by the cumulative byte-length change of the earlier
    /// replacements. Each selection takes the matching replacement text;
    /// with a single text, all selections take it; selections beyond the
    /// texts take the empty text, and texts beyond the selections are
    /// dropped.
    ///
    /// The byte drift of the result is the sum, over the changes, of
    /// inserted minus removed bytes. For ordered, pairwise disjoint byte
    /// selections on splice points and no movement rule, each change's range
    /// is exactly the selection's range shifted by the drift accumulated
    /// before it.
    #[verifier::rlimit(100)]
    #[verifier::spinoff_prover]
    pub fn apply_byte_edits(
        &mut self,
        selections: &Vec<Selection<Byte>>,
        texts: &Vec<Text>,
        transform: Option<crate::movement::Transform>,
    ) -> (r: Modification)
        requires
            old(self).wf(),
        ensures
            final(self).wf(),
            r.changes@.len() == selections@.len(),
            forall|i: int|
                0 <= i < selections@.len() ==> (#[trigger] r.changes@[i]).selection.id
                    == selections@[i].id,
            r.byte_offset.value == final(self).text_bytes().len() - old(self).text_bytes().len(),
            r.byte_offset.value == drift_of(r.changes@, r.changes@.len() as int),
            final(self).text_bytes() == applied_changes(
                old(self).text_bytes(),
                r.changes@,
                r.changes@.len() as int,
            ),
            forall|i: int|
                0 <= i < r.changes@.len() ==> (#[trigger] r.changes@[i]).change.text@ == chunk_for(
                    texts@,
                    i,
                ),
            forall|i: int|
                0 <= i < r.changes@.len() ==> (#[trigger] r.changes@[i]).change.range.start.value
                    <= r.changes@[i].change.range.end.value <= applied_changes(
                    old(self).text_bytes(),
                    r.changes@,
                    i,
                ).len(),
            forall|q: int|
                0 <= q < r.selection_group@.len() ==> (#[trigger] r.selection_group@[q]).start
                    == r.selection_group@[q].end,
            forall|i: int|
                0 <= i < r.changes@.len() ==> (#[trigger] r.changes@[i]).selection.start
                    == r.changes@[i].selection.end,
            crate::selection::unique_ids(r.selection_group@),
            forall|q: int|
                0 <= q < r.selection_group@.len() ==> exists|i: int|
                    0 <= i < selections@.len() && (#[trigger] r.selection_group@[q]).id
                        == selections@[i].id,
            final(self).spec_history() == old(self).spec_history(),
            final(self).spec_selections() == old(self).spec_selections(),
            final(self).spec_next_id() == old(self).spec_next_id(),
            distinct_byte_ids(selections@) ==> r.selection_group@.len() == selections@.len()
                && forall|i: int|
                0 <= i < selections@.len() ==> (#[trigger] r.selection_group@[i]).id
                    == selections@[i].id && batch_cursor_ok(
                    old(self).text_bytes(),
                    r.changes@,
                    i,
                    r.selection_group@[i],
                ),
            selections@.len() == 1 ==> edit_range_spec(
                old(self).text_bytes(),
                selections@[0],
                transform,
                r.changes@[0].change.range.start.value as int,
                r.changes@[0].change.range.end.value as int,
            ),
            (transform is None && ordered_disjoint_selections(old(self).text_bytes(), selections@))
                ==> forall|i: int|
                0 <= i < selections@.len() ==> (#[trigger] r.changes@[i]).change.range.start.value
                    == selections@[i].start.value + drift_of(r.changes@, i)
                    && r.changes@[i].change.range.end.value == selections@[i].end.value + drift_of(
                    r.changes@,
                    i,
                ),
    {
        let ghost s0 = old(self).text_bytes();
        let ghost cond = transform is None && ordered_disjoint_selections(s0, selections@);
        let orig_len = self.text.byte_size();
        let mut modification = Modification::new();
        let n = selections.len();
        let mut i: usize = 0;
        while i < n
            invariant
                i <= n,
                n == selections@.len(),
                self.wf(),
                s0 == old(self).text_bytes(),
                orig_len.value == s0.len(),
                cond == (transform is None && ordered_disjoint_selections(s0, selections@)),
                self.spec_history() == old(self).spec_history(),
                self.spec_selections() == old(self).spec_selections(),
                self.spec_next_id() == old(self).spec_next_id(),
                modification.changes@.len() == i,
                forall|j: int|
                    0 <= j < i ==> (#[trigger] modification.changes@[j]).selection.id
                        == selections@[j].id,
                modification.byte_offset.value == self.text_bytes().len() - s0.len(),
                modification.byte_offset.value == drift_of(modification.changes@, i as int),
                self.text_bytes() == applied_changes(s0, modification.changes@, i as int),
                forall|j: int|
                    0 <= j < i ==> (#[trigger] modification.changes@[j]).change.text@ == chunk_for(
                        texts@,
                        j,
                    ),
                forall|j: int|
                    0 <= j < i ==> (
                    #[trigger] modification.changes@[j]).change.range.start.value
                        <= modification.changes@[j].change.range.end.value <= applied_changes(
                        s0,
                        modification.changes@,
                        j,
                    ).len(),
                forall|q: int|
                    0 <= q < modification.selection_group@.len() ==> (
                    #[trigger] modification.selection_group@[q]).start
                        == modification.selection_group@[q].end,
                forall|j: int|
                    0 <= j < i ==> (#[trigger] modification.changes@[j]).selection.start
                        == modification.changes@[j].selection.end,
                crate::selection::unique_ids(modification.selection_group@),
                forall|q: int|
                    0 <= q < modification.selection_group@.len() ==> exists|j: int|
                        0 <= j < i && (#[trigger] modification.selection_group@[q]).id
                            == selections@[j].id,
                distinct_byte_ids(selections@) ==> modification.selection_group@.len() == i
                    && forall|j: int|
                    0 <= j < i ==> (#[trigger] modification.selection_group@[j]).id
                        == selections@[j].id && batch_cursor_ok(
                        s0,
                        modification.changes@,
                        j,
                        modification.selection_group@[j],
                    ),
                n == 1 && i == 1 ==> edit_range_spec(
                    s0,
                    selections@[0],
                    transform,
                    modification.changes@[0].change.range.start.value as int,
                    modification.changes@[0].change.range.end.value as int,
                ),
                cond ==> forall|j: int|
                    0 <= j < i ==> (#[trigger] modification.changes@[j]).change.range.start.value
                        == selections@[j].start.value + drift_of(modification.changes@, j)
                        && modification.changes@[j].change.range.end.value
                        == selections@[j].end.value + drift_of(modification.changes@, j),
                cond ==> forall|j: int|
                    i <= j < n ==> 0 <= (#[trigger] selections@[j]).start.value
                        + modification.byte_offset.value && selections@[j].end.value
                        + modification.byte_offset.value <= self.text_bytes().len()
                        && strict_boundary(
                        self.text_bytes(),
                        selections@[j].start.value + modification.byte_offset.value,
                    ) && strict_boundary(
                        self.text_bytes(),
                        selections@[j].end.value + modification.byte_offset.value,
                    ),
            decreases n - i,
        {
            let ghost s_cur = self.text_bytes();
            let ghost drift0 = modification.byte_offset.value as int;
            let sel = selections[i];
            let text_i = if texts.len() == 1 {
                texts[0].clone()
            } else if i < texts.len() {
                texts[i].clone()
            } else {
                Text::new()
            };
            // Shift the selection by the accumulated drift, clamping a
            // negative result to zero.
            let d = modification.byte_offset.value;
            let cur_len = self.text.byte_size();
            proof {
                assert(-(usize::MAX as i128) <= d <= usize::MAX as i128);
            }
            let start_shifted: usize = shift_offset(sel.start, d, cur_len);
            let end_shifted: usize = shift_offset(sel.end, d, cur_len);
            let shifted = Selection {
                start: Byte { value: start_shifted },
                end: Byte { value: end_shifted },
                id: sel.id,
            };
            proof {
                if cond {
                    assert(selections@[i as int].start.value + drift0 >= 0);
                    assert(selections@[i as int].end.value + drift0 <= s_cur.len());
                    assert(start_shifted == selections@[i as int].start.value + drift0);
                    assert(end_shifted == selections@[i as int].end.value + drift0);
                }
            }
            let m = self.modify_selection(shifted, &text_i, transform);
            let ghost s_next = self.text_bytes();
            let ghost ch = m.changes@[0];
            let ghost lo = ch.change.range.start.value as int;
            let ghost hi = ch.change.range.end.value as int;
            let ghost ins_len = ch.change.text@.len() as int;
            let ghost delta = ins_len - (hi - lo);
            proof {
                if cond {
                    // The shifted selection is in bounds, ordered and on
                    // splice points, so the snapped range is exact.
                    assert(strict_boundary(s_cur, start_shifted as int));
                    assert(strict_boundary(s_cur, end_shifted as int));
                    assert(crate::content::is_boundary(s_cur, start_shifted as int));
                    assert(crate::content::is_boundary(s_cur, end_shifted as int));
                    crate::content::lemma_snap_left_of_boundary(s_cur, start_shifted as int);
                    crate::content::lemma_snap_left_of_boundary(s_cur, end_shifted as int);
                    assert(lo == start_shifted && hi == end_shifted);
                    // Later selections keep their splice points, shifted by
                    // this change's length difference.
                    assert forall|j: int| i + 1 <= j < n implies 0 <= (
                    #[trigger] selections@[j]).start.value + (drift0 + delta)
                        && selections@[j].end.value + (drift0 + delta) <= s_next.len()
                        && strict_boundary(
                        s_next,
                        selections@[j].start.value + (drift0 + delta),
                    ) && strict_boundary(s_next, selections@[j].end.value + (drift0 + delta)) by {
                        let ps = selections@[j].start.value + drift0;
                        let pe = selections@[j].end.value + drift0;
                        assert(selections@[j].start.value >= selections@[i as int].end.value) by {
                            lemma_sel_order(selections@, i as int, j);
                        }
                        assert(ps >= hi && pe >= hi);
                        crate::content::lemma_splice_keeps_boundaries(
                            s_cur,
                            lo,
                            hi,
                            ch.change.text@,
                            ps,
                        );
                        crate::content::lemma_splice_keeps_boundaries(
                            s_cur,
                            lo,
                            hi,
                            ch.change.text@,
                            pe,
                        );
                        assert(ps - hi + lo + ins_len == selections@[j].start.value + (drift0
                            + delta));
                        assert(s_next.len() == s_cur.len() + delta);
                        if ps < s_cur.len() {
                            assert(s_next[ps + delta] == s_cur[ps]);
                        }
                        if pe < s_cur.len() {
                            assert(s_next[pe + delta] == s_cur[pe]);
                        }
                    }
                }
                // Uniqueness of the merged group's identities.
                crate::selection::lemma_merge_keeps_unique_ids(
                    modification.selection_group@,
                    m.selection_group@[0],
                );
            }
            let new_len = self.text.byte_size();
            proof {
                assert(modification.byte_offset.value + m.byte_offset.value == new_len.value
                    - s0.len());
                assert(i128::MIN < modification.byte_offset.value + m.byte_offset.value
                    < i128::MAX);
            }
            let ghost pre_changes = modification.changes@;
            let ghost pre_group = modification.selection_group@;
            modification.merge(m);
            proof {
                assert(drift_of(modification.changes@, i + 1) == drift_of(pre_changes, i as int)
                    + delta) by {
                    assert(modification.changes@.len() == i + 1);
                    assert forall|q: int| 0 <= q < i implies #[trigger] modification.changes@[q]
                        == pre_changes[q] by {}
                    lemma_drift_prefix(pre_changes, modification.changes@, i as int);
                }
                assert(applied_changes(s0, modification.changes@, i as int) == applied_changes(
                    s0,
                    pre_changes,
                    i as int,
                )) by {
                    lemma_applied_prefix(s0, pre_changes, modification.changes@, i as int);
                }
                assert(s_next == applied_changes(s0, modification.changes@, i + 1));
                assert forall|j: int| 0 <= j < i + 1 implies (
                #[trigger] modification.changes@[j]).change.range.start.value
                    <= modification.changes@[j].change.range.end.value <= applied_changes(
                    s0,
                    modification.changes@,
                    j,
                ).len() by {
                    lemma_applied_prefix(s0, pre_changes, modification.changes@, j);
                    if j < i {
                    } else {
                        assert(modification.changes@[j] == ch);
                    }
                }
                assert(chunk_for(texts@, i as int) == text_i@);
                if i == 0 && n == 1 {
                    // With no drift, the shifted selection is the original
                    // one clamped into the text, so the recorded range obeys
                    // the same range description.
                    assert(start_shifted == clamped(selections@[0].start.value as int, s0.len() as int));
                    assert(end_shifted == clamped(selections@[0].end.value as int, s0.len() as int));
                    assert(edit_range_spec(s0, shifted, transform, lo, hi));
                    assert(edit_range_spec(s0, selections@[0], transform, lo, hi));
                }
                if distinct_byte_ids(selections@) {
                    // Distinct identities: the merge appends the new cursor
                    // without dropping any earlier one.
                    let pred = |s: Selection<Location<Column, Line>>|
                        s.id.value != m.selection_group@[0].id.value;
                    assert forall|q: int| 0 <= q < pre_group.len() implies pred(
                        #[trigger] pre_group[q],
                    ) by {
                        assert(pre_group[q].id == selections@[q].id);
                        assert(m.selection_group@[0].id == selections@[i as int].id);
                    }
                    crate::selection::lemma_filter_identity(pre_group, pred);
                    assert(modification.selection_group@ =~= pre_group.push(
                        m.selection_group@[0],
                    ));
                    assert forall|j: int| 0 <= j < i + 1 implies (
                    #[trigger] modification.selection_group@[j]).id == selections@[j].id
                        && batch_cursor_ok(
                        s0,
                        modification.changes@,
                        j,
                        modification.selection_group@[j],
                    ) by {
                        if j < i {
                            assert(modification.selection_group@[j] == pre_group[j]);
                            assert(batch_cursor_ok(s0, pre_changes, j, pre_group[j]));
                            lemma_batch_cursor_stable(
                                s0,
                                pre_changes,
                                modification.changes@,
                                j,
                                pre_group[j],
                            );
                        } else {
                            assert(modification.selection_group@[j] == m.selection_group@[0]);
                            assert(modification.changes@[j] == ch);
                            assert(s_next == applied_changes(s0, modification.changes@, j + 1));
                        }
                    }
                }
                assert forall|q: int|
                    0 <= q < modification.selection_group@.len() implies (
                #[trigger] modification.selection_group@[q]).start
                    == modification.selection_group@[q].end by {
                    let pred = |s: Selection<Location<Column, Line>>|
                        s.id.value != m.selection_group@[0].id.value;
                    let f = pre_group.filter(pred);
                    if q < f.len() {
                        crate::selection::lemma_filter_element_origin(pre_group, pred, q);
                        let p = choose|p: int| 0 <= p < pre_group.len() && f[q] == pre_group[p];
                        assert(pre_group[p].start == pre_group[p].end);
                    } else {
                        assert(modification.selection_group@[q] == m.selection_group@[0]);
                    }
                }
                assert forall|q: int|
                    0 <= q < modification.selection_group@.len() implies exists|j: int|
                    0 <= j < i + 1 && (#[trigger] modification.selection_group@[q]).id
                        == selections@[j].id by {
                    let f = pre_group.filter(
                        |s: Selection<Location<Column, Line>>|
                            s.id.value != m.selection_group@[0].id.value,
                    );
                    if q < f.len() {
                        crate::selection::lemma_filter_element_origin(
                            pre_group,
                            |s: Selection<Location<Column, Line>>|
                                s.id.value != m.selection_group@[0].id.value,
                            q,
                        );
                        let p = choose|p: int|
                            0 <= p < pre_group.len() && f[q] == pre_group[p];
                        let j = choose|j: int|
                            0 <= j < i && (pre_group[p]).id == selections@[j].id;
                        assert(modification.selection_group@[q].id == selections@[j].id);
                    } else {
                        assert(modification.selection_group@[q] == m.selection_group@[0]);
                        assert(m.selection_group@[0].id == selections@[i as int].id);
                    }
                }
                if cond {
                    assert forall|j: int|
                        0 <= j < i + 1 implies (
                    #[trigger] modification.changes@[j]).change.range.start.value
                        == selections@[j].start.value + drift_of(modification.changes@, j)
                        && modification.changes@[j].change.range.end.value
                        == selections@[j].end.value + drift_of(modification.changes@, j) by {
                        lemma_drift_prefix_upto(pre_changes, modification.changes@, j);
                        if j < i {
                        } else {
                            assert(modification.changes@[j] == ch);
                            assert(drift_of(modification.changes@, j) == drift0);
                        }
                    }
                }
            }
            i = i + 1;
        }
        modification
    }
}

/// Shift a byte offset by a drift, clamping the result into the text.
fn shift_offset(v: Byte, d: i128, len: Byte) -> (r: usize)
    requires
        -(usize::MAX as i128) <= d <= usize::MAX as i128,
    ensures
        0 <= v.value + d <= len.value ==> r == v.value + d,
        v.value + d < 0 ==> r == 0,
        v.value + d > len.value ==> r == len.value,
{
    let shifted = v.value as i128 + d;
    if shifted < 0 {
        0
    } else if shifted > len.value as i128 {
        len.value
    } else {
        shifted as usize
    }
}

/// Ordered disjoint selections keep their order at a distance: any later
/// selection starts at or after any earlier selection's end.
proof fn lemma_sel_order(sels: Seq<Selection<Byte>>, i: int, j: int)
    requires
        0 <= i < j < sels.len(),
        forall|k: int| 0 <= k < sels.len() ==> (#[trigger] sels[k]).start.value <= sels[k].end.value,
        forall|k: int| 0 < k < sels.len() ==> (#[trigger] sels[k]).start.value >= sels[k - 1].end.value,
    ensures
        sels[j].start.value >= sels[i].end.value,
    decreases j - i,
{
    if i + 1 < j {
        lemma_sel_order(sels, i + 1, j);
    }
}

/// A recorded cursor's description only reads the change prefix up to its
/// own change, so extending the batch keeps it.
proof fn lemma_batch_cursor_stable(
    s0: Seq<u8>,
    a: Seq<Change>,
    b: Seq<Change>,
    j: int,
    c: Selection<Location<Column, Line>>,
)
    requires
        0 <= j < a.len(),
        a.len() <= b.len(),
        forall|q: int| 0 <= q < a.len() ==> #[trigger] b[q] == a[q],
        batch_cursor_ok(s0, a, j, c),
    ensures
        batch_cursor_ok(s0, b, j, c),
{
    lemma_applied_prefix(s0, a, b, j + 1);
}

/// The text after a prefix of changes only depends on the prefix.
proof fn lemma_applied_prefix(s: Seq<u8>, a: Seq<Change>, b: Seq<Change>, upto: int)
    requires
        0 <= upto <= a.len(),
        upto <= b.len(),
        forall|q: int| 0 <= q < upto ==> #[trigger] b[q] == a[q],
    ensures
        applied_changes(s, b, upto) == applied_changes(s, a, upto),
    decreases upto,
{
    if upto > 0 {
        lemma_applied_prefix(s, a, b, upto - 1);
    }
}

/// The drift of a prefix only depends on the prefix.
proof fn lemma_drift_prefix(a: Seq<Change>, b: Seq<Change>, upto: int)
    requires
        0 <= upto <= a.len(),
        upto <= b.len(),
        forall|q: int| 0 <= q < upto ==> #[trigger] b[q] == a[q],
    ensures
        drift_of(b, upto) == drift_of(a, upto),
    decreases upto,
{
    if upto > 0 {
        lemma_drift_prefix(a, b, upto - 1);
    }
}

/// The drift of a prefix of the extended change list equals the drift of the
/// same prefix of the original one.
proof fn lemma_drift_prefix_upto(a: Seq<Change>, b: Seq<Change>, upto: int)
    requires
        0 <= upto <= a.len(),
        a.len() < b.len(),
        forall|q: int| 0 <= q < a.len() ==> #[trigger] b[q] == a[q],
    ensures
        drift_of(b, upto) == drift_of(a, upto),
    decreases upto,
{
    if upto > 0 {
        lemma_drift_prefix_upto(a, b, upto - 1);
    }
}


impl BufferModel {
    /// Apply one replacement per active selection, in one atomic batch: a
    /// snapshot of the pre-edit state is pushed for undo, the selections are
    /// taken in recency order and drifted by the earlier replacements'
    /// byte-length changes, and the resulting cursors are installed as the
    /// new selections.
    pub fn modify_selections(
        &mut self,
        texts: &Vec<Text>,
        transform: Option<crate::movement::Transform>,
    ) -> (r: Modification)
        requires
            old(self).wf(),
        ensures
            final(self).wf(),
            final(self).spec_history().len() == old(self).spec_history().len() + 1,
            forall|i: int|
                0 <= i < old(self).spec_history().len() ==> final(self).spec_history()[i] == old(self).spec_history()[i],
            ({
                let frame = final(self).spec_history().last();
                frame.text@ == old(self).text_bytes() && format_eq(
                    &frame.style,
                    old(self).spec_style(),
                ) && frame.selection@ == old(self).spec_selections()
            }),
            r.changes@.len() == old(self).spec_selections().len(),
            r.byte_offset.value == final(self).text_bytes().len() - old(self).text_bytes().len(),
            r.byte_offset.value == drift_of(r.changes@, r.changes@.len() as int),
            final(self).text_bytes() == applied_changes(
                old(self).text_bytes(),
                r.changes@,
                r.changes@.len() as int,
            ),
            forall|i: int|
                0 <= i < r.changes@.len() ==> (#[trigger] r.changes@[i]).change.text@ == chunk_for(
                    texts@,
                    i,
                ),
            forall|i: int|
                0 <= i < r.changes@.len() ==> (#[trigger] r.changes@[i]).change.range.start.value
                    <= r.changes@[i].change.range.end.value <= applied_changes(
                    old(self).text_bytes(),
                    r.changes@,
                    i,
                ).len(),
            forall|q: int|
                0 <= q < r.selection_group@.len() ==> (#[trigger] r.selection_group@[q]).start
                    == r.selection_group@[q].end,
            final(self).spec_selections() == r.selection_group@,
            forall|i: int|
                0 <= i < old(self).spec_selections().len() ==> (#[trigger] r.changes@[i]).selection.id
                    == old(self).spec_selections()[i].id,
            edits_linked(
                old(self).text_bytes(),
                old(self).spec_cache(),
                old(self).spec_selections(),
                transform,
                r.changes@,
            ),
            r.selection_group@.len() == old(self).spec_selections().len(),
            forall|i: int|
                0 <= i < old(self).spec_selections().len() ==> (
                #[trigger] r.selection_group@[i]).id == old(self).spec_selections()[i].id
                    && batch_cursor_ok(
                    old(self).text_bytes(),
                    r.changes@,
                    i,
                    r.selection_group@[i],
                ),
    {
        let ghost s0 = self.text_bytes();
        let ghost sels0 = self.spec_selections();
        self.commit_history();
        let byte_sels = self.byte_selections();
        let ghost mid = self.spec_cache();
        let m = self.apply_byte_edits(&byte_sels, texts, transform);
        proof {
            assert(distinct_byte_ids(byte_sels@)) by {
                assert forall|i: int, j: int| 0 <= i < j < byte_sels@.len() implies (
                #[trigger] byte_sels@[i]).id.value != (#[trigger] byte_sels@[j]).id.value by {
                    assert(byte_sels@[i].id == sels0[i].id);
                    assert(byte_sels@[j].id == sels0[j].id);
                    assert(sels0[i].id.value != sels0[j].id.value);
                }
            }
            // The byte forms equal the conversion formula over the cache the
            // conversions produced, which extends the original one.
            let bspec = Seq::new(sels0.len(), |i: int| bsel_of(s0, mid, sels0[i]));
            assert(bspec =~= byte_sels@) by {
                assert forall|i: int| 0 <= i < sels0.len() implies bspec[i] == byte_sels@[i] by {
                    assert(byte_sels@[i].start.value == column_location_byte_offset(
                        s0,
                        mid,
                        sels0[i].start,
                    ));
                    assert(byte_sels@[i].end.value == column_location_byte_offset(
                        s0,
                        mid,
                        sels0[i].end,
                    ));
                }
            }
            assert(conversion_cache_ok(s0, old(self).spec_cache(), mid));
            assert(edits_linked(s0, old(self).spec_cache(), sels0, transform, m.changes@)) by {
                assert(conversion_cache_ok(s0, old(self).spec_cache(), mid) && ({
                    let bsels = Seq::new(sels0.len(), |i: int| bsel_of(s0, mid, sels0[i]));
                    &&& (forall|i: int|
                        0 <= i < sels0.len() ==> mid.contains_key(
                            clamped(
                                (#[trigger] sels0[i]).start.line.value as int,
                                last_line_of(s0) as int,
                            ),
                        ) && mid.contains_key(
                            clamped(sels0[i].end.line.value as int, last_line_of(s0) as int),
                        ))
                    &&& (sels0.len() == 1 && m.changes@.len() == 1 ==> edit_range_spec(
                        s0,
                        bsels[0],
                        transform,
                        m.changes@[0].change.range.start.value as int,
                        m.changes@[0].change.range.end.value as int,
                    ))
                    &&& ((transform is None && ordered_disjoint_selections(s0, bsels))
                        ==> forall|i: int|
                        0 <= i < m.changes@.len() ==> (
                        #[trigger] m.changes@[i]).change.range.start.value == bsels[i].start.value
                            + drift_of(m.changes@, i) && m.changes@[i].change.range.end.value
                            == bsels[i].end.value + drift_of(m.changes@, i))
                }));
            }
            assert forall|q: int| 0 <= q < m.selection_group@.len() implies (
            #[trigger] m.selection_group@[q]).id.value < usize::MAX by {
                let i = choose|i: int|
                    0 <= i < byte_sels@.len() && m.selection_group@[q].id == byte_sels@[i].id;
                assert(byte_sels@[i].id == old(self).spec_selections()[i].id);
                assert(old(self).spec_selections()[i].id.value < old(self).spec_next_id());
            }
        }
        self.set_selection(&m.selection_group);
        m
    }

    /// Insert the given text at every selection, replacing what each
    /// selection covered.
    pub fn insert(&mut self, text: &Text) -> (r: Modification)
        requires
            old(self).wf(),
        ensures
            final(self).wf(),
            final(self).spec_history().len() == old(self).spec_history().len() + 1,
            ({
                let frame = final(self).spec_history().last();
                frame.text@ == old(self).text_bytes() && frame.selection@ == old(self).spec_selections()
            }),
            r.changes@.len() == old(self).spec_selections().len(),
            r.byte_offset.value == final(self).text_bytes().len() - old(self).text_bytes().len(),
            r.byte_offset.value == drift_of(r.changes@, r.changes@.len() as int),
            final(self).text_bytes() == applied_changes(
                old(self).text_bytes(),
                r.changes@,
                r.changes@.len() as int,
            ),
            forall|i: int|
                0 <= i < r.changes@.len() ==> (#[trigger] r.changes@[i]).change.text@ == text@,
            forall|i: int|
                0 <= i < r.changes@.len() ==> (#[trigger] r.changes@[i]).change.range.start.value
                    <= r.changes@[i].change.range.end.value <= applied_changes(
                    old(self).text_bytes(),
                    r.changes@,
                    i,
                ).len(),
            forall|q: int|
                0 <= q < r.selection_group@.len() ==> (#[trigger] r.selection_group@[q]).start
                    == r.selection_group@[q].end,
            forall|i: int|
                0 <= i < old(self).spec_selections().len() ==> (#[trigger] r.changes@[i]).selection.id
                    == old(self).spec_selections()[i].id,
            edits_linked(
                old(self).text_bytes(),
                old(self).spec_cache(),
                old(self).spec_selections(),
                None,
                r.changes@,
            ),
            r.selection_group@.len() == old(self).spec_selections().len(),
            forall|i: int|
                0 <= i < old(self).spec_selections().len() ==> (
                #[trigger] r.selection_group@[i]).id == old(self).spec_selections()[i].id
                    && batch_cursor_ok(
                    old(self).text_bytes(),
                    r.changes@,
                    i,
                    r.selection_group@[i],
                ),
            final(self).spec_selections() == r.selection_group@,
    {
        let mut texts: Vec<Text> = Vec::new();
        texts.push(text.clone());
        let m = self.modify_selections(&texts, None);
        proof {
            assert(texts@.len() == 1);
            assert forall|i: int| 0 <= i < m.changes@.len() implies (
            #[trigger] m.changes@[i]).change.text@ == text@ by {
                assert(chunk_for(texts@, i) == texts@[0]@);
            }
        }
        m
    }

    /// Paste the given chunks into the selections: chunk `i` goes to
    /// selection `i`; a single chunk is broadcast to every selection; extra
    /// chunks are dropped and extra selections take empty text.
    pub fn paste(&mut self, texts: &Vec<Text>) -> (r: Modification)
        requires
            old(self).wf(),
        ensures
            final(self).wf(),
            final(self).spec_history().len() == old(self).spec_history().len() + 1,
            r.changes@.len() == old(self).spec_selections().len(),
            r.byte_offset.value == final(self).text_bytes().len() - old(self).text_bytes().len(),
            r.byte_offset.value == drift_of(r.changes@, r.changes@.len() as int),
            final(self).text_bytes() == applied_changes(
                old(self).text_bytes(),
                r.changes@,
                r.changes@.len() as int,
            ),
            forall|i: int|
                0 <= i < r.changes@.len() ==> (#[trigger] r.changes@[i]).change.text@ == chunk_for(
                    texts@,
                    i,
                ),
            forall|i: int|
                0 <= i < r.changes@.len() ==> (#[trigger] r.changes@[i]).change.range.start.value
                    <= r.changes@[i].change.range.end.value <= applied_changes(
                    old(self).text_bytes(),
                    r.changes@,
                    i,
                ).len(),
            forall|q: int|
                0 <= q < r.selection_group@.len() ==> (#[trigger] r.selection_group@[q]).start
                    == r.selection_group@[q].end,
            forall|i: int|
                0 <= i < old(self).spec_selections().len() ==> (#[trigger] r.changes@[i]).selection.id
                    == old(self).spec_selections()[i].id,
            edits_linked(
                old(self).text_bytes(),
                old(self).spec_cache(),
                old(self).spec_selections(),
                None,
                r.changes@,
            ),
            r.selection_group@.len() == old(self).spec_selections().len(),
            forall|i: int|
                0 <= i < old(self).spec_selections().len() ==> (
                #[trigger] r.selection_group@[i]).id == old(self).spec_selections()[i].id
                    && batch_cursor_ok(
                    old(self).text_bytes(),
                    r.changes@,
                    i,
                    r.selection_group@[i],
                ),
            final(self).spec_selections() == r.selection_group@,
    {
        self.modify_selections(texts, None)
    }

    /// Remove the grapheme cluster before every cursor (or each selection's
    /// content).
    pub fn delete_left(&mut self) -> (r: Modification)
        requires
            old(self).wf(),
        ensures
            final(self).wf(),
            final(self).spec_history().len() == old(self).spec_history().len() + 1,
            r.changes@.len() == old(self).spec_selections().len(),
            r.byte_offset.value == final(self).text_bytes().len() - old(self).text_bytes().len(),
            r.byte_offset.value == drift_of(r.changes@, r.changes@.len() as int),
            final(self).text_bytes() == applied_changes(
                old(self).text_bytes(),
                r.changes@,
                r.changes@.len() as int,
            ),
            forall|i: int|
                0 <= i < r.changes@.len() ==> (#[trigger] r.changes@[i]).change.text@.len() == 0,
            forall|i: int|
                0 <= i < r.changes@.len() ==> (#[trigger] r.changes@[i]).change.range.start.value
                    <= r.changes@[i].change.range.end.value <= applied_changes(
                    old(self).text_bytes(),
                    r.changes@,
                    i,
                ).len(),
            forall|q: int|
                0 <= q < r.selection_group@.len() ==> (#[trigger] r.selection_group@[q]).start
                    == r.selection_group@[q].end,
            forall|i: int|
                0 <= i < old(self).spec_selections().len() ==> (#[trigger] r.changes@[i]).selection.id
                    == old(self).spec_selections()[i].id,
            edits_linked(
                old(self).text_bytes(),
                old(self).spec_cache(),
                old(self).spec_selections(),
                Some(crate::movement::Transform::Left),
                r.changes@,
            ),
            r.selection_group@.len() == old(self).spec_selections().len(),
            forall|i: int|
                0 <= i < old(self).spec_selections().len() ==> (
                #[trigger] r.selection_group@[i]).id == old(self).spec_selections()[i].id
                    && batch_cursor_ok(
                    old(self).text_bytes(),
                    r.changes@,
                    i,
                    r.selection_group@[i],
                ),
            final(self).spec_selections() == r.selection_group@,
    {
        let texts: Vec<Text> = Vec::new();
        self.modify_selections(&texts, Some(crate::movement::Transform::Left))
    }

    /// Remove the grapheme cluster after every cursor (or each selection's
    /// content).
    pub fn delete_right(&mut self) -> (r: Modification)
        requires
            old(self).wf(),
        ensures
            final(self).wf(),
            final(self).spec_history().len() == old(self).spec_history().len() + 1,
            r.changes@.len() == old(self).spec_selections().len(),
            r.byte_offset.value == final(self).text_bytes().len() - old(self).text_bytes().len(),
            r.byte_offset.value == drift_of(r.changes@, r.changes@.len() as int),
            final(self).text_bytes() == applied_changes(
                old(self).text_bytes(),
                r.changes@,
                r.changes@.len() as int,
            ),
            forall|i: int|
                0 <= i < r.changes@.len() ==> (#[trigger] r.changes@[i]).change.text@.len() == 0,
            forall|i: int|
                0 <= i < r.changes@.len() ==> (#[trigger] r.changes@[i]).change.range.start.value
                    <= r.changes@[i].change.range.end.value <= applied_changes(
                    old(self).text_bytes(),
                    r.changes@,
                    i,
                ).len(),
            forall|q: int|
                0 <= q < r.selection_group@.len() ==> (#[trigger] r.selection_group@[q]).start
                    == r.selection_group@[q].end,
            forall|i: int|
                0 <= i < old(self).spec_selections().len() ==> (#[trigger] r.changes@[i]).selection.id
                    == old(self).spec_selections()[i].id,
            edits_linked(
                old(self).text_bytes(),
                old(self).spec_cache(),
                old(self).spec_selections(),
                Some(crate::movement::Transform::Right),
                r.changes@,
            ),
            r.selection_group@.len() == old(self).spec_selections().len(),
            forall|i: int|
                0 <= i < old(self).spec_selections().len() ==> (
                #[trigger] r.selection_group@[i]).id == old(self).spec_selections()[i].id
                    && batch_cursor_ok(
                    old(self).text_bytes(),
                    r.changes@,
                    i,
                    r.selection_group@[i],
                ),
            final(self).spec_selections() == r.selection_group@,
    {
        let texts: Vec<Text> = Vec::new();
        self.modify_selections(&texts, Some(crate::movement::Transform::Right))
    }

    /// Remove the word before every cursor (or each selection's content).
    pub fn delete_word_left(&mut self) -> (r: Modification)
        requires
            old(self).wf(),
        ensures
            final(self).wf(),
            final(self).spec_history().len() == old(self).spec_history().len() + 1,
            r.changes@.len() == old(self).spec_selections().len(),
            r.byte_offset.value == final(self).text_bytes().len() - old(self).text_bytes().len(),
            r.byte_offset.value == drift_of(r.changes@, r.changes@.len() as int),
            final(self).text_bytes() == applied_changes(
                old(self).text_bytes(),
                r.changes@,
                r.changes@.len() as int,
            ),
            forall|i: int|
                0 <= i < r.changes@.len() ==> (#[trigger] r.changes@[i]).change.text@.len() == 0,
            forall|i: int|
                0 <= i < r.changes@.len() ==> (#[trigger] r.changes@[i]).change.range.start.value
                    <= r.changes@[i].change.range.end.value <= applied_changes(
                    old(self).text_bytes(),
                    r.changes@,
                    i,
                ).len(),
            forall|q: int|
                0 <= q < r.selection_group@.len() ==> (#[trigger] r.selection_group@[q]).start
                    == r.selection_group@[q].end,
            forall|i: int|
                0 <= i < old(self).spec_selections().len() ==> (#[trigger] r.changes@[i]).selection.id
                    == old(self).spec_selections()[i].id,
            edits_linked(
                old(self).text_bytes(),
                old(self).spec_cache(),
                old(self).spec_selections(),
                Some(crate::movement::Transform::LeftWord),
                r.changes@,
            ),
            r.selection_group@.len() == old(self).spec_selections().len(),
            forall|i: int|
                0 <= i < old(self).spec_selections().len() ==> (
                #[trigger] r.selection_group@[i]).id == old(self).spec_selections()[i].id
                    && batch_cursor_ok(
                    old(self).text_bytes(),
                    r.changes@,
                    i,
                    r.selection_group@[i],
                ),
            final(self).spec_selections() == r.selection_group@,
    {
        let texts: Vec<Text> = Vec::new();
        self.modify_selections(&texts, Some(crate::movement::Transform::LeftWord))
    }

    /// Remove the word after every cursor (or each selection's content).
    pub fn delete_word_right(&mut self) -> (r: Modification)
        requires
            old(self).wf(),
        ensures
            final(self).wf(),
            final(self).spec_history().len() == old(self).spec_history().len() + 1,
            r.changes@.len() == old(self).spec_selections().len(),
            r.byte_offset.value == final(self).text_bytes().len() - old(self).text_bytes().len(),
            r.byte_offset.value == drift_of(r.changes@, r.changes@.len() as int),
            final(self).text_bytes() == applied_changes(
                old(self).text_bytes(),
                r.changes@,
                r.changes@.len() as int,
            ),
            forall|i: int|
                0 <= i < r.changes@.len() ==> (#[trigger] r.changes@[i]).change.text@.len() == 0,
            forall|i: int|
                0 <= i < r.changes@.len() ==> (#[trigger] r.changes@[i]).change.range.start.value
                    <= r.changes@[i].change.range.end.value <= applied_changes(
                    old(self).text_bytes(),
                    r.changes@,
                    i,
                ).len(),
            forall|q: int|
                0 <= q < r.selection_group@.len() ==> (#[trigger] r.selection_group@[q]).start
                    == r.selection_group@[q].end,
            forall|i: int|
                0 <= i < old(self).spec_selections().len() ==> (#[trigger] r.changes@[i]).selection.id
                    == old(self).spec_selections()[i].id,
            edits_linked(
                old(self).text_bytes(),
                old(self).spec_cache(),
                old(self).spec_selections(),
                Some(crate::movement::Transform::RightWord),
                r.changes@,
            ),
            r.selection_group@.len() == old(self).spec_selections().len(),
            forall|i: int|
                0 <= i < old(self).spec_selections().len() ==> (
                #[trigger] r.selection_group@[i]).id == old(self).spec_selections()[i].id
                    && batch_cursor_ok(
                    old(self).text_bytes(),
                    r.changes@,
                    i,
                    r.selection_group@[i],
                ),
            final(self).spec_selections() == r.selection_group@,
    {
        let texts: Vec<Text> = Vec::new();
        self.modify_selections(&texts, Some(crate::movement::Transform::RightWord))
    }
}

// === Style commands ===

/// The smaller end of a byte range after cropping it to a text of `len`
/// bytes.
pub open spec fn cropped_lo(len: int, range: Range<Byte>) -> int {
    vstd::math::min(
        clamped(range.start.value as int, len),
        clamped(range.end.value as int, len),
    )
}

/// The larger end of a byte range after cropping it to a text of `len`
/// bytes.
pub open spec fn cropped_hi(len: int, range: Range<Byte>) -> int {
    vstd::math::max(
        clamped(range.start.value as int, len),
        clamped(range.end.value as int, len),
    )
}

/// Whether byte `i` lies in one of the given ranges, each cropped to a text
/// of `len` bytes.
pub open spec fn covered_by(len: int, ranges: Seq<Range<Byte>>, i: int) -> bool {
    exists|j: int|
        0 <= j < ranges.len() && cropped_lo(len, #[trigger] ranges[j]) <= i < cropped_hi(
            len,
            ranges[j],
        )
}

/// A font size moved by a relative change, saturating at the numeric bounds.
pub open spec fn size_with_diff(v: Size, d: int) -> Size {
    if v.value + d < 0 {
        Size { value: 0 }
    } else if v.value + d > u32::MAX {
        Size { value: u32::MAX }
    } else {
        Size { value: (v.value + d) as u32 }
    }
}

/// A rendering weight moved by a relative change, saturating at the numeric
/// bounds.
pub open spec fn sdf_with_diff(v: SdfWeight, d: int) -> SdfWeight {
    if v.value + d < i32::MIN {
        SdfWeight { value: i32::MIN }
    } else if v.value + d > i32::MAX {
        SdfWeight { value: i32::MAX }
    } else {
        SdfWeight { value: (v.value + d) as i32 }
    }
}

/// Whether the new style resolves byte `i` to the old value moved by the
/// relative change, in the change's field.
pub open spec fn applies_diff(new: &FormatSpan, before: &FormatSpan, d: PropertyDiff, i: int) -> bool {
    match d {
        PropertyDiff::Size(dv) => new.size.resolve(i) == size_with_diff(
            before.size.resolve(i),
            dv as int,
        ),
        PropertyDiff::SdfWeight(dv) => new.sdf_weight.resolve(i) == sdf_with_diff(
            before.sdf_weight.resolve(i),
            dv as int,
        ),
    }
}

/// Whether two style stores resolve byte `i` alike on every field other than
/// the one the relative change addresses.
pub open spec fn diff_eq_except(a: &FormatSpan, b: &FormatSpan, d: PropertyDiff, i: int) -> bool {
    &&& (!(d is Size) ==> a.size.resolve(i) == b.size.resolve(i))
    &&& a.color.resolve(i) == b.color.resolve(i)
    &&& a.weight.resolve(i) == b.weight.resolve(i)
    &&& a.width.resolve(i) == b.width.resolve(i)
    &&& a.style.resolve(i) == b.style.resolve(i)
    &&& a.underline.resolve(i) == b.underline.resolve(i)
    &&& (!(d is SdfWeight) ==> a.sdf_weight.resolve(i) == b.sdf_weight.resolve(i))
}

/// Whether the new style resolves byte `i` to the old value moved by the
/// relative change, and alike on every other field.
pub open spec fn modded_at(new: &FormatSpan, before: &FormatSpan, d: PropertyDiff, i: int) -> bool {
    applies_diff(new, before, d, i) && diff_eq_except(new, before, d, i)
}

/// Whether the given ranges, cropped to a text of `len` bytes, are pairwise
/// disjoint.
pub open spec fn ranges_disjoint(len: int, ranges: Seq<Range<Byte>>) -> bool {
    forall|j: int, k: int|
        0 <= j < k < ranges.len() ==> cropped_hi(len, #[trigger] ranges[j]) <= cropped_lo(
            len,
            ranges[k],
        ) || cropped_hi(len, #[trigger] ranges[k]) <= cropped_lo(len, ranges[j])
}

/// Whether two style stores resolve byte `i` alike on every field other than
/// the one the property addresses.
pub open spec fn resolved_eq_except(a: &FormatSpan, b: &FormatSpan, p: Property, i: int) -> bool {
    &&& (!(p is Size) ==> a.size.resolve(i) == b.size.resolve(i))
    &&& (!(p is Color) ==> a.color.resolve(i) == b.color.resolve(i))
    &&& (!(p is Weight) ==> a.weight.resolve(i) == b.weight.resolve(i))
    &&& (!(p is Width) ==> a.width.resolve(i) == b.width.resolve(i))
    &&& (!(p is Style) ==> a.style.resolve(i) == b.style.resolve(i))
    &&& (!(p is Underline) ==> a.underline.resolve(i) == b.underline.resolve(i))
    &&& (!(p is SdfWeight) ==> a.sdf_weight.resolve(i) == b.sdf_weight.resolve(i))
}

/// What byte `i` resolves to in the property's field after the property has
/// been applied over it: the explicit value, or the field's default for a
/// `None` payload.
pub open spec fn applies_property(style: &FormatSpan, p: Property, i: int) -> bool {
    match p {
        Property::Size(o) => style.size.resolve(i) == match o {
            Some(v) => v,
            None => style.size.spec_default(),
        },
        Property::Color(o) => style.color.resolve(i) == match o {
            Some(v) => v,
            None => style.color.spec_default(),
        },
        Property::Weight(o) => style.weight.resolve(i) == match o {
            Some(v) => v,
            None => style.weight.spec_default(),
        },
        Property::Width(o) => style.width.resolve(i) == match o {
            Some(v) => v,
            None => style.width.spec_default(),
        },
        Property::Style(o) => style.style.resolve(i) == match o {
            Some(v) => v,
            None => style.style.spec_default(),
        },
        Property::Underline(o) => style.underline.resolve(i) == match o {
            Some(v) => v,
            None => style.underline.spec_default(),
        },
        Property::SdfWeight(o) => style.sdf_weight.resolve(i) == match o {
            Some(v) => v,
            None => style.sdf_weight.spec_default(),
        },
    }
}

impl BufferModel {
    /// Apply a style property value over every given byte range (each
    /// cropped to the text). A `None` in the property's payload resets the
    /// ranges to follow the property's default.
    #[verifier::rlimit(100)]
    #[verifier::spinoff_prover]
    pub fn set_property(&mut self, ranges: &Vec<Range<Byte>>, property: Option<Property>)
        requires
            old(self).wf(),
        ensures
            final(self).wf(),
            final(self).text_bytes() == old(self).text_bytes(),
            final(self).spec_selections() == old(self).spec_selections(),
            final(self).spec_cache() == old(self).spec_cache(),
            final(self).spec_history() == old(self).spec_history(),
            match property {
                Some(p) => {
                    let len = old(self).text_bytes().len() as int;
                    &&& (forall|i: int|
                        !covered_by(len, ranges@, i) ==> #[trigger] final(self).spec_style().resolved(i) == old(self).spec_style().resolved(i))
                    &&& (forall|i: int|
                        covered_by(len, ranges@, i) ==> #[trigger] applies_property(
                            final(self).spec_style(),
                            p,
                            i,
                        ) && resolved_eq_except(
                            final(self).spec_style(),
                            old(self).spec_style(),
                            p,
                            i,
                        ))
                    &&& final(self).spec_style().size.spec_default() == old(self).spec_style().size.spec_default()
                    &&& final(self).spec_style().sdf_weight.spec_default() == old(self).spec_style().sdf_weight.spec_default()
                },
                None => format_eq(final(self).spec_style(), old(self).spec_style()),
            },
    {
        match property {
            Some(property) => {
                let ghost len = old(self).text_bytes().len() as int;
                let n = ranges.len();
                let mut i: usize = 0;
                while i < n
                    invariant
                        i <= n,
                        n == ranges@.len(),
                        self.wf(),
                        len == old(self).text_bytes().len() as int,
                        self.text_bytes() == old(self).text_bytes(),
                        self.spec_selections() == old(self).spec_selections(),
                        self.spec_cache() == old(self).spec_cache(),
                        self.spec_history() == old(self).spec_history(),
                        forall|q: int|
                            !covered_by(len, ranges@.subrange(0, i as int), q) ==> #[trigger] self.spec_style().resolved(q) == old(self).spec_style().resolved(q),
                        forall|q: int|
                            covered_by(len, ranges@.subrange(0, i as int), q)
                                ==> #[trigger] applies_property(self.spec_style(), property, q)
                                && resolved_eq_except(
                                self.spec_style(),
                                old(self).spec_style(),
                                property,
                                q,
                            ),
                        self.spec_style().size.spec_default() == old(self).spec_style().size.spec_default(),
                        self.spec_style().color.spec_default() == old(self).spec_style().color.spec_default(),
                        self.spec_style().weight.spec_default() == old(self).spec_style().weight.spec_default(),
                        self.spec_style().width.spec_default() == old(self).spec_style().width.spec_default(),
                        self.spec_style().style.spec_default() == old(self).spec_style().style.spec_default(),
                        self.spec_style().underline.spec_default() == old(self).spec_style().underline.spec_default(),
                        self.spec_style().sdf_weight.spec_default() == old(self).spec_style().sdf_weight.spec_default(),
                    decreases n - i,
                {
                    let ghost pre = ranges@.subrange(0, i as int);
                    let range = self.crop_and_order(ranges[i]);
                    let ghost mid = *self;
                    self.set_property_in_range(range, property);
                    proof {
                        let cur = ranges@.subrange(0, i as int + 1);
                        assert forall|q: int| covered_by(len, cur, q) implies covered_by(
                            len,
                            pre,
                            q,
                        ) || (range.start.value <= q < range.end.value) by {
                            let j = choose|j: int|
                                0 <= j < cur.len() && cropped_lo(len, #[trigger] cur[j]) <= q
                                    < cropped_hi(len, cur[j]);
                            if j < i {
                                assert(pre[j] == cur[j]);
                            } else {
                                assert(cur[j] == ranges@[i as int]);
                            }
                        }
                        assert forall|q: int| covered_by(len, pre, q) implies covered_by(
                            len,
                            cur,
                            q,
                        ) by {
                            let j = choose|j: int|
                                0 <= j < pre.len() && cropped_lo(len, #[trigger] pre[j]) <= q
                                    < cropped_hi(len, pre[j]);
                            assert(cur[j] == pre[j]);
                            assert(cropped_lo(len, cur[j]) <= q < cropped_hi(len, cur[j]));
                        }
                        assert forall|q: int|
                            range.start.value <= q < range.end.value implies covered_by(
                            len,
                            cur,
                            q,
                        ) by {
                            assert(cur[i as int] == ranges@[i as int]);
                            assert(cropped_lo(len, cur[i as int]) <= q < cropped_hi(
                                len,
                                cur[i as int],
                            ));
                        }
                        assert forall|q: int| covered_by(len, cur, q) implies #[trigger] applies_property(
                            self.spec_style(),
                            property,
                            q,
                        ) && resolved_eq_except(
                            self.spec_style(),
                            old(self).spec_style(),
                            property,
                            q,
                        ) by {
                            if range.start.value <= q < range.end.value {
                                assert(applies_property(self.spec_style(), property, q));
                                assert(resolved_eq_except(
                                    self.spec_style(),
                                    mid.spec_style(),
                                    property,
                                    q,
                                ));
                                if covered_by(len, pre, q) {
                                    assert(applies_property(mid.spec_style(), property, q));
                                    assert(resolved_eq_except(
                                        mid.spec_style(),
                                        old(self).spec_style(),
                                        property,
                                        q,
                                    ));
                                } else {
                                    assert(mid.spec_style().resolved(q) == old(self).spec_style().resolved(q));
                                }
                            } else {
                                assert(covered_by(len, pre, q));
                                assert(applies_property(mid.spec_style(), property, q));
                                assert(self.spec_style().resolved(q) == mid.spec_style().resolved(
                                    q,
                                ));
                            }
                        }
                        assert forall|q: int| !covered_by(len, cur, q) implies #[trigger] self.spec_style().resolved(
                            q,
                        ) == old(self).spec_style().resolved(q) by {
                            assert(!covered_by(len, pre, q));
                            assert(!(range.start.value <= q < range.end.value));
                            assert(self.spec_style().resolved(q) == mid.spec_style().resolved(q));
                            assert(mid.spec_style().resolved(q) == old(self).spec_style().resolved(
                                q,
                            ));
                        }
                    }
                    i = i + 1;
                }
                proof {
                    assert(ranges@.subrange(0, n as int) =~= ranges@);
                }
            },
            None => {},
        }
    }

    /// Apply a relative style change over every given byte range (each
    /// cropped to the text).
    #[verifier::rlimit(100)]
    #[verifier::spinoff_prover]
    pub fn mod_property(&mut self, ranges: &Vec<Range<Byte>>, property: Option<PropertyDiff>)
        requires
            old(self).wf(),
        ensures
            final(self).wf(),
            final(self).text_bytes() == old(self).text_bytes(),
            final(self).spec_selections() == old(self).spec_selections(),
            final(self).spec_cache() == old(self).spec_cache(),
            final(self).spec_history() == old(self).spec_history(),
            match property {
                Some(d) => {
                    let len = old(self).text_bytes().len() as int;
                    &&& (forall|i: int|
                        !covered_by(len, ranges@, i) ==> #[trigger] final(self).spec_style().resolved(i) == old(self).spec_style().resolved(i))
                    &&& (forall|i: int|
                        covered_by(len, ranges@, i) ==> #[trigger] diff_eq_except(
                            final(self).spec_style(),
                            old(self).spec_style(),
                            d,
                            i,
                        ))
                    &&& (ranges_disjoint(len, ranges@) ==> forall|i: int|
                        covered_by(len, ranges@, i) ==> #[trigger] applies_diff(
                            final(self).spec_style(),
                            old(self).spec_style(),
                            d,
                            i,
                        ))
                },
                None => format_eq(final(self).spec_style(), old(self).spec_style()),
            },
    {
        match property {
            Some(diff) => {
                let ghost len = old(self).text_bytes().len() as int;
                let ghost disjoint = ranges_disjoint(len, ranges@);
                let n = ranges.len();
                let mut i: usize = 0;
                while i < n
                    invariant
                        i <= n,
                        n == ranges@.len(),
                        self.wf(),
                        len == old(self).text_bytes().len() as int,
                        disjoint == ranges_disjoint(len, ranges@),
                        self.text_bytes() == old(self).text_bytes(),
                        self.spec_selections() == old(self).spec_selections(),
                        self.spec_cache() == old(self).spec_cache(),
                        self.spec_history() == old(self).spec_history(),
                        forall|q: int|
                            !covered_by(len, ranges@.subrange(0, i as int), q) ==> #[trigger] self.spec_style().resolved(q) == old(self).spec_style().resolved(q),
                        forall|q: int|
                            covered_by(len, ranges@.subrange(0, i as int), q)
                                ==> #[trigger] diff_eq_except(
                                self.spec_style(),
                                old(self).spec_style(),
                                diff,
                                q,
                            ),
                        disjoint ==> forall|q: int|
                            covered_by(len, ranges@.subrange(0, i as int), q)
                                ==> #[trigger] applies_diff(
                                self.spec_style(),
                                old(self).spec_style(),
                                diff,
                                q,
                            ),
                    decreases n - i,
                {
                    let ghost pre = ranges@.subrange(0, i as int);
                    let range = self.crop_and_order(ranges[i]);
                    let ghost mid = *self;
                    self.mod_property_in_range(range, diff);
                    proof {
                        let cur = ranges@.subrange(0, i as int + 1);
                        assert forall|q: int| covered_by(len, cur, q) implies covered_by(
                            len,
                            pre,
                            q,
                        ) || (range.start.value <= q < range.end.value) by {
                            let j = choose|j: int|
                                0 <= j < cur.len() && cropped_lo(len, #[trigger] cur[j]) <= q
                                    < cropped_hi(len, cur[j]);
                            if j < i {
                                assert(pre[j] == cur[j]);
                            } else {
                                assert(cur[j] == ranges@[i as int]);
                            }
                        }
                        assert forall|q: int| covered_by(len, pre, q) implies covered_by(
                            len,
                            cur,
                            q,
                        ) by {
                            let j = choose|j: int|
                                0 <= j < pre.len() && cropped_lo(len, #[trigger] pre[j]) <= q
                                    < cropped_hi(len, pre[j]);
                            assert(cur[j] == pre[j]);
                            assert(cropped_lo(len, cur[j]) <= q < cropped_hi(len, cur[j]));
                        }
                        assert forall|q: int|
                            range.start.value <= q < range.end.value implies covered_by(
                            len,
                            cur,
                            q,
                        ) by {
                            assert(cur[i as int] == ranges@[i as int]);
                            assert(cropped_lo(len, cur[i as int]) <= q < cropped_hi(
                                len,
                                cur[i as int],
                            ));
                        }
                        if disjoint {
                            // Disjoint ranges: a byte of an earlier range is
                            // untouched by this application, and a byte of
                            // this range was untouched before it.
                            assert forall|q: int|
                                range.start.value <= q < range.end.value implies !covered_by(
                                len,
                                pre,
                                q,
                            ) by {
                                if covered_by(len, pre, q) {
                                    let j = choose|j: int|
                                        0 <= j < pre.len() && cropped_lo(len, #[trigger] pre[j])
                                            <= q < cropped_hi(len, pre[j]);
                                    assert(ranges@[j] == pre[j]);
                                    assert(cropped_hi(len, ranges@[j]) <= cropped_lo(
                                        len,
                                        ranges@[i as int],
                                    ) || cropped_hi(len, ranges@[i as int]) <= cropped_lo(
                                        len,
                                        ranges@[j],
                                    ));
                                    assert(false);
                                }
                            }
                        }
                        assert forall|q: int| covered_by(len, cur, q) implies #[trigger] diff_eq_except(
                            self.spec_style(),
                            old(self).spec_style(),
                            diff,
                            q,
                        ) by {
                            if range.start.value <= q < range.end.value {
                                assert(modded_at(self.spec_style(), mid.spec_style(), diff, q));
                                if covered_by(len, pre, q) {
                                    assert(diff_eq_except(
                                        mid.spec_style(),
                                        old(self).spec_style(),
                                        diff,
                                        q,
                                    ));
                                } else {
                                    assert(mid.spec_style().resolved(q) == old(self).spec_style().resolved(q));
                                }
                            } else {
                                assert(covered_by(len, pre, q));
                                assert(diff_eq_except(
                                    mid.spec_style(),
                                    old(self).spec_style(),
                                    diff,
                                    q,
                                ));
                                assert(self.spec_style().resolved(q) == mid.spec_style().resolved(
                                    q,
                                ));
                            }
                        }
                        if disjoint {
                            assert forall|q: int| covered_by(len, cur, q) implies #[trigger] applies_diff(
                                self.spec_style(),
                                old(self).spec_style(),
                                diff,
                                q,
                            ) by {
                                if range.start.value <= q < range.end.value {
                                    assert(!covered_by(len, pre, q));
                                    assert(mid.spec_style().resolved(q) == old(self).spec_style().resolved(q));
                                    assert(modded_at(
                                        self.spec_style(),
                                        mid.spec_style(),
                                        diff,
                                        q,
                                    ));
                                } else {
                                    assert(covered_by(len, pre, q));
                                    assert(applies_diff(
                                        mid.spec_style(),
                                        old(self).spec_style(),
                                        diff,
                                        q,
                                    ));
                                    assert(self.spec_style().resolved(q) == mid.spec_style().resolved(q));
                                }
                            }
                        }
                        assert forall|q: int| !covered_by(len, cur, q) implies #[trigger] self.spec_style().resolved(q) == old(self).spec_style().resolved(q) by {
                            assert(!covered_by(len, pre, q));
                            assert(!(range.start.value <= q < range.end.value));
                            assert(self.spec_style().resolved(q) == mid.spec_style().resolved(q));
                            assert(mid.spec_style().resolved(q) == old(self).spec_style().resolved(q));
                        }
                    }
                    i = i + 1;
                }
                proof {
                    assert(ranges@.subrange(0, n as int) =~= ranges@);
                }
            },
            None => {},
        }
    }

    /// Change the default value of a style property, which retroactively
    /// affects every byte no explicit span covers.
    pub fn set_property_default(&mut self, property: Option<ResolvedProperty>)
        requires
            old(self).wf(),
        ensures
            final(self).wf(),
            final(self).text_bytes() == old(self).text_bytes(),
            final(self).spec_selections() == old(self).spec_selections(),
            final(self).spec_cache() == old(self).spec_cache(),
            final(self).spec_history() == old(self).spec_history(),
            match property {
                Some(ResolvedProperty::Size(v)) => final(self).spec_style().size.spec_default()
                    == v,
                Some(ResolvedProperty::Color(v)) => final(self).spec_style().color.spec_default()
                    == v,
                Some(ResolvedProperty::Weight(v)) => final(self).spec_style().weight.spec_default() == v,
                Some(ResolvedProperty::Width(v)) => final(self).spec_style().width.spec_default()
                    == v,
                Some(ResolvedProperty::Style(v)) => final(self).spec_style().style.spec_default()
                    == v,
                Some(ResolvedProperty::Underline(v)) => final(self).spec_style().underline.spec_default() == v,
                Some(ResolvedProperty::SdfWeight(v)) => final(self).spec_style().sdf_weight.spec_default() == v,
                None => true,
            },
    {
        match property {
            Some(ResolvedProperty::Size(v)) => self.style.size.set_default(v),
            Some(ResolvedProperty::Color(v)) => self.style.color.set_default(v),
            Some(ResolvedProperty::Weight(v)) => self.style.weight.set_default(v),
            Some(ResolvedProperty::Width(v)) => self.style.width.set_default(v),
            Some(ResolvedProperty::Style(v)) => self.style.style.set_default(v),
            Some(ResolvedProperty::Underline(v)) => self.style.underline.set_default(v),
            Some(ResolvedProperty::SdfWeight(v)) => self.style.sdf_weight.set_default(v),
            None => {},
        }
    }

    /// Resolve a property value: substitute the property's current default
    /// for a `None` payload.
    pub fn resolve_property(&self, property: Property) -> (r: ResolvedProperty)
        ensures
            match property {
                Property::Size(o) => r == ResolvedProperty::Size(
                    match o {
                        Some(v) => v,
                        None => self.spec_style().size.spec_default(),
                    },
                ),
                Property::Color(o) => r == ResolvedProperty::Color(
                    match o {
                        Some(v) => v,
                        None => self.spec_style().color.spec_default(),
                    },
                ),
                Property::Weight(o) => r == ResolvedProperty::Weight(
                    match o {
                        Some(v) => v,
                        None => self.spec_style().weight.spec_default(),
                    },
                ),
                Property::Width(o) => r == ResolvedProperty::Width(
                    match o {
                        Some(v) => v,
                        None => self.spec_style().width.spec_default(),
                    },
                ),
                Property::Style(o) => r == ResolvedProperty::Style(
                    match o {
                        Some(v) => v,
                        None => self.spec_style().style.spec_default(),
                    },
                ),
                Property::Underline(o) => r == ResolvedProperty::Underline(
                    match o {
                        Some(v) => v,
                        None => self.spec_style().underline.spec_default(),
                    },
                ),
                Property::SdfWeight(o) => r == ResolvedProperty::SdfWeight(
                    match o {
                        Some(v) => v,
                        None => self.spec_style().sdf_weight.spec_default(),
                    },
                ),
            },
    {
        match property {
            Property::Size(o) => ResolvedProperty::Size(
                match o {
                    Some(v) => v,
                    None => self.style.size.default_value(),
                },
            ),
            Property::Color(o) => ResolvedProperty::Color(
                match o {
                    Some(v) => v,
                    None => self.style.color.default_value(),
                },
            ),
            Property::Weight(o) => ResolvedProperty::Weight(
                match o {
                    Some(v) => v,
                    None => self.style.weight.default_value(),
                },
            ),
            Property::Width(o) => ResolvedProperty::Width(
                match o {
                    Some(v) => v,
                    None => self.style.width.default_value(),
                },
            ),
            Property::Style(o) => ResolvedProperty::Style(
                match o {
                    Some(v) => v,
                    None => self.style.style.default_value(),
                },
            ),
            Property::Underline(o) => ResolvedProperty::Underline(
                match o {
                    Some(v) => v,
                    None => self.style.underline.default_value(),
                },
            ),
            Property::SdfWeight(o) => ResolvedProperty::SdfWeight(
                match o {
                    Some(v) => v,
                    None => self.style.sdf_weight.default_value(),
                },
            ),
        }
    }

    /// Crop a byte range to the text and put its ends in order.
    pub fn crop_byte_range(&self, range: Range<Byte>) -> (r: Range<Byte>)
        ensures
            r.start.value == clamped(range.start.value as int, self.text_bytes().len() as int),
            r.end.value == clamped(range.end.value as int, self.text_bytes().len() as int),
    {
        self.text.crop_byte_range(range)
    }

    /// Crop a byte range to the text, with its ends put in increasing order.
    fn crop_and_order(&self, range: Range<Byte>) -> (r: Range<Byte>)
        ensures
            r.start.value <= r.end.value <= self.text_bytes().len(),
            r.start.value == cropped_lo(self.text_bytes().len() as int, range),
            r.end.value == cropped_hi(self.text_bytes().len() as int, range),
    {
        let c = self.text.crop_byte_range(range);
        if c.start.value <= c.end.value {
            c
        } else {
            Range { start: c.end, end: c.start }
        }
    }

    /// Apply one property value over one ordered in-bounds range.
    fn set_property_in_range(&mut self, range: Range<Byte>, property: Property)
        requires
            old(self).wf(),
            range.start.value <= range.end.value <= old(self).text_bytes().len(),
        ensures
            final(self).wf(),
            final(self).text_bytes() == old(self).text_bytes(),
            final(self).spec_selections() == old(self).spec_selections(),
            final(self).spec_cache() == old(self).spec_cache(),
            final(self).spec_history() == old(self).spec_history(),
            forall|i: int|
                !(range.start.value <= i < range.end.value) ==> #[trigger] final(self).spec_style().resolved(i) == old(self).spec_style().resolved(i),
            forall|i: int|
                range.start.value <= i < range.end.value ==> #[trigger] applies_property(
                    final(self).spec_style(),
                    property,
                    i,
                ) && resolved_eq_except(
                    final(self).spec_style(),
                    old(self).spec_style(),
                    property,
                    i,
                ),
            final(self).spec_style().size.spec_default() == old(self).spec_style().size.spec_default(),
            final(self).spec_style().color.spec_default() == old(self).spec_style().color.spec_default(),
            final(self).spec_style().weight.spec_default() == old(self).spec_style().weight.spec_default(),
            final(self).spec_style().width.spec_default() == old(self).spec_style().width.spec_default(),
            final(self).spec_style().style.spec_default() == old(self).spec_style().style.spec_default(),
            final(self).spec_style().underline.spec_default() == old(self).spec_style().underline.spec_default(),
            final(self).spec_style().sdf_weight.spec_default() == old(self).spec_style().sdf_weight.spec_default(),
    {
        let text_len = self.text.byte_size();
        let size = range.end.value - range.start.value;
        match property {
            Property::Size(o) => match o {
                Some(v) => self.style.size.set(range, v),
                None => self.style.size.replace_resize(range, size, text_len.value),
            },
            Property::Color(o) => match o {
                Some(v) => self.style.color.set(range, v),
                None => self.style.color.replace_resize(range, size, text_len.value),
            },
            Property::Weight(o) => match o {
                Some(v) => self.style.weight.set(range, v),
                None => self.style.weight.replace_resize(range, size, text_len.value),
            },
            Property::Width(o) => match o {
                Some(v) => self.style.width.set(range, v),
                None => self.style.width.replace_resize(range, size, text_len.value),
            },
            Property::Style(o) => match o {
                Some(v) => self.style.style.set(range, v),
                None => self.style.style.replace_resize(range, size, text_len.value),
            },
            Property::Underline(o) => match o {
                Some(v) => self.style.underline.set(range, v),
                None => self.style.underline.replace_resize(range, size, text_len.value),
            },
            Property::SdfWeight(o) => match o {
                Some(v) => self.style.sdf_weight.set(range, v),
                None => self.style.sdf_weight.replace_resize(range, size, text_len.value),
            },
        }
        proof {
            assert forall|i: int|
                !(range.start.value <= i < range.end.value) implies #[trigger] self.spec_style().resolved(
                i,
            ) == old(self).spec_style().resolved(i) by {
                assert(self.spec_style().size.resolve(i) == old(self).spec_style().size.resolve(
                    i,
                ));
                assert(self.spec_style().color.resolve(i) == old(self).spec_style().color.resolve(
                    i,
                ));
                assert(self.spec_style().weight.resolve(i) == old(self).spec_style().weight.resolve(i));
                assert(self.spec_style().width.resolve(i) == old(self).spec_style().width.resolve(
                    i,
                ));
                assert(self.spec_style().style.resolve(i) == old(self).spec_style().style.resolve(
                    i,
                ));
                assert(self.spec_style().underline.resolve(i) == old(self).spec_style().underline.resolve(i));
                assert(self.spec_style().sdf_weight.resolve(i) == old(self).spec_style().sdf_weight.resolve(i));
            }
        }
    }

    /// Apply one relative property change over one ordered in-bounds range,
    /// byte by byte, saturating at the numeric bounds.
    #[verifier::rlimit(100)]
    #[verifier::spinoff_prover]
    fn mod_property_in_range(&mut self, range: Range<Byte>, diff: PropertyDiff)
        requires
            old(self).wf(),
            range.start.value <= range.end.value <= old(self).text_bytes().len(),
        ensures
            final(self).wf(),
            final(self).text_bytes() == old(self).text_bytes(),
            final(self).spec_selections() == old(self).spec_selections(),
            final(self).spec_cache() == old(self).spec_cache(),
            final(self).spec_history() == old(self).spec_history(),
            forall|q: int|
                !(range.start.value <= q < range.end.value) ==> #[trigger] final(self).spec_style().resolved(q) == old(self).spec_style().resolved(q),
            forall|q: int|
                range.start.value <= q < range.end.value ==> #[trigger] modded_at(
                    final(self).spec_style(),
                    old(self).spec_style(),
                    diff,
                    q,
                ),
    {
        let mut i: usize = range.start.value;
        while i < range.end.value
            invariant
                range.start.value <= i <= range.end.value,
                range.end.value <= old(self).text_bytes().len(),
                self.wf(),
                self.text_bytes() == old(self).text_bytes(),
                self.spec_selections() == old(self).spec_selections(),
                self.spec_cache() == old(self).spec_cache(),
                self.spec_history() == old(self).spec_history(),
                forall|q: int|
                    !(range.start.value <= q < i) ==> #[trigger] self.spec_style().resolved(q)
                        == old(self).spec_style().resolved(q),
                forall|q: int|
                    range.start.value <= q < i ==> #[trigger] modded_at(
                        self.spec_style(),
                        old(self).spec_style(),
                        diff,
                        q,
                    ),
            decreases range.end.value - i,
        {
            let byte_range = Range { start: Byte { value: i }, end: Byte { value: i + 1 } };
            let ghost before = *self;
            match diff {
                PropertyDiff::Size(d) => {
                    let v = self.style.size.resolve_at(i);
                    let nv = if d >= 0 {
                        if v.value > u32::MAX - (d as u32) {
                            u32::MAX
                        } else {
                            v.value + (d as u32)
                        }
                    } else {
                        let neg = if d == i32::MIN {
                            0x8000_0000u32
                        } else {
                            (-d) as u32
                        };
                        if v.value < neg {
                            0
                        } else {
                            v.value - neg
                        }
                    };
                    self.style.size.set(byte_range, Size { value: nv });
                },
                PropertyDiff::SdfWeight(d) => {
                    let v = self.style.sdf_weight.resolve_at(i);
                    let nv = if d >= 0 {
                        if v.value > i32::MAX - d {
                            i32::MAX
                        } else {
                            v.value + d
                        }
                    } else {
                        if v.value < i32::MIN - d {
                            i32::MIN
                        } else {
                            v.value + d
                        }
                    };
                    self.style.sdf_weight.set(byte_range, SdfWeight { value: nv });
                },
            }
            proof {
                // The single-byte application: byte `i` moves by the change,
                // every other byte keeps what it resolved to.
                assert forall|q: int| q != i implies #[trigger] self.spec_style().resolved(q)
                    == before.spec_style().resolved(q) by {}
                assert(applies_diff(self.spec_style(), old(self).spec_style(), diff, i as int))
                    by {
                    assert(before.spec_style().resolved(i as int) == old(self).spec_style().resolved(i as int));
                }
                assert(diff_eq_except(self.spec_style(), old(self).spec_style(), diff, i as int))
                    by {
                    assert(before.spec_style().resolved(i as int) == old(self).spec_style().resolved(i as int));
                }
                assert forall|q: int| !(range.start.value <= q < i + 1) implies #[trigger] self.spec_style().resolved(q) == old(self).spec_style().resolved(q) by {
                    assert(before.spec_style().resolved(q) == old(self).spec_style().resolved(q));
                }
                assert forall|q: int| range.start.value <= q < i + 1 implies #[trigger] modded_at(
                    self.spec_style(),
                    old(self).spec_style(),
                    diff,
                    q,
                ) by {
                    if q < i {
                        assert(modded_at(before.spec_style(), old(self).spec_style(), diff, q));
                        assert(self.spec_style().resolved(q) == before.spec_style().resolved(q));
                    }
                }
            }
            i = i + 1;
        }
    }
}

// ============
// === Laws ===
// ============

/// Undo exactness.
///
/// Law: an edit pushes a snapshot of the pre-edit state, and undo restores
/// the pushed snapshot, so an edit followed by undo restores the text, the
/// style and the selections of the pre-edit state, byte for byte.
pub proof fn lemma_undo_exactness(
    b0: BufferModel,
    b1: BufferModel,
    b2: BufferModel,
    restored: Seq<Selection<Location<Column, Line>>>,
)
    requires
        // What every edit guarantees about the snapshot it pushes:
        b1.spec_history().len() == b0.spec_history().len() + 1,
        b1.spec_history().last().text@ == b0.text_bytes(),
        format_eq(&b1.spec_history().last().style, b0.spec_style()),
        b1.spec_history().last().selection@ == b0.spec_selections(),
        // What undo guarantees when it pops that snapshot:
        b2.text_bytes() == b1.spec_history().last().text@,
        format_eq(b2.spec_style(), &b1.spec_history().last().style),
        restored == b1.spec_history().last().selection@,
    ensures
        b2.text_bytes() == b0.text_bytes(),
        format_eq(b2.spec_style(), b0.spec_style()),
        restored == b0.spec_selections(),
{
}


// ==================================
// === Range and location aliases ===
// ==================================

/// A range-like description: any of these can describe a byte range of the
/// buffer.
#[derive(Clone, Copy, Debug, PartialEq, Eq, Structural)]
pub enum RangeLike {
    /// The ranges of the current selections.
    Selections,
    /// An explicit byte range.
    BufferRangeBytes(Range<Byte>),
    /// A range between two column locations.
    BufferRangeLocationColumn(Range<Location<Column, Line>>),
    /// The whole buffer.
    RangeFull,
}

impl RangeLike {
    /// The byte ranges this description denotes in the given buffer.
    pub fn expand(&self, buffer: &mut BufferModel) -> (r: Vec<Range<Byte>>)
        requires
            old(buffer).wf(),
        ensures
            final(buffer).wf(),
            final(buffer).text_bytes() == old(buffer).text_bytes(),
            final(buffer).spec_selections() == old(buffer).spec_selections(),
            final(buffer).spec_history() == old(buffer).spec_history(),
            match self {
                RangeLike::Selections => r@.len() == old(buffer).spec_selections().len()
                    && forall|i: int|
                    0 <= i < r@.len() ==> ({
                        let a = column_location_byte_offset(
                            old(buffer).text_bytes(),
                            final(buffer).spec_cache(),
                            old(buffer).spec_selections()[i].start,
                        );
                        let b = column_location_byte_offset(
                            old(buffer).text_bytes(),
                            final(buffer).spec_cache(),
                            old(buffer).spec_selections()[i].end,
                        );
                        (#[trigger] r@[i]).start.value == vstd::math::min(a, b)
                            && r@[i].end.value == vstd::math::max(a, b)
                    }),
                RangeLike::BufferRangeBytes(range) => r@ == seq![*range],
                RangeLike::BufferRangeLocationColumn(range) => r@.len() == 1
                    && r@[0].start.value == column_location_byte_offset(
                    old(buffer).text_bytes(),
                    final(buffer).spec_cache(),
                    range.start,
                ) && r@[0].end.value == column_location_byte_offset(
                    old(buffer).text_bytes(),
                    final(buffer).spec_cache(),
                    range.end,
                ),
                RangeLike::RangeFull => r@.len() == 1 && r@[0].start.value == 0 && r@[0].end.value
                    == old(buffer).text_bytes().len(),
            },
    {
        match self {
            RangeLike::Selections => {
                let sels = buffer.byte_selections();
                let ghost cache = buffer.spec_cache();
                let mut out: Vec<Range<Byte>> = Vec::new();
                let n = sels.len();
                let mut i: usize = 0;
                while i < n
                    invariant
                        i <= n,
                        n == sels@.len(),
                        n == old(buffer).spec_selections().len(),
                        out@.len() == i,
                        buffer.wf(),
                        cache == buffer.spec_cache(),
                        buffer.text_bytes() == old(buffer).text_bytes(),
                        buffer.spec_selections() == old(buffer).spec_selections(),
                        buffer.spec_history() == old(buffer).spec_history(),
                        forall|j: int|
                            0 <= j < n ==> (#[trigger] sels@[j]).start.value
                                == column_location_byte_offset(
                                old(buffer).text_bytes(),
                                cache,
                                old(buffer).spec_selections()[j].start,
                            ) && sels@[j].end.value == column_location_byte_offset(
                                old(buffer).text_bytes(),
                                cache,
                                old(buffer).spec_selections()[j].end,
                            ),
                        forall|j: int|
                            0 <= j < i ==> ({
                                let a = column_location_byte_offset(
                                    old(buffer).text_bytes(),
                                    cache,
                                    old(buffer).spec_selections()[j].start,
                                );
                                let b = column_location_byte_offset(
                                    old(buffer).text_bytes(),
                                    cache,
                                    old(buffer).spec_selections()[j].end,
                                );
                                (#[trigger] out@[j]).start.value == vstd::math::min(a, b)
                                    && out@[j].end.value == vstd::math::max(a, b)
                            }),
                    decreases n - i,
                {
                    out.push(sels[i].range());
                    i = i + 1;
                }
                out
            },
            RangeLike::BufferRangeBytes(range) => {
                let mut out: Vec<Range<Byte>> = Vec::new();
                out.push(*range);
                proof {
                    assert(out@ =~= seq![*range]);
                }
                out
            },
            RangeLike::BufferRangeLocationColumn(range) => {
                let ghost s = buffer.text_bytes();
                let ghost cache0 = buffer.spec_cache();
                let start = buffer.byte_offset_of_column_location_snapped(range.start);
                let ghost cache1 = buffer.spec_cache();
                let end = buffer.byte_offset_of_column_location_snapped(range.end);
                proof {
                    lemma_conversion_stable(s, cache1, buffer.spec_cache(), range.start);
                }
                let mut out: Vec<Range<Byte>> = Vec::new();
                out.push(Range { start, end });
                out
            },
            RangeLike::RangeFull => {
                let mut out: Vec<Range<Byte>> = Vec::new();
                out.push(buffer.full_range());
                out
            },
        }
    }
}

/// A location-like description: any of these can describe a point in the
/// buffer.
#[derive(Clone, Copy, Debug, PartialEq, Eq, Structural)]
pub enum LocationLike {
    LocationColumnLine(Location<Column, Line>),
    LocationByteLine(Location<Byte, Line>),
    LocationColumnViewLine(Location<Column, ViewLine>),
    LocationByteViewLine(Location<Byte, ViewLine>),
}

impl LocationLike {
    /// The column location this description denotes in the given buffer.
    pub fn expand(&self, buffer: &mut BufferModel) -> (r: Location<Column, Line>)
        requires
            old(buffer).wf(),
        ensures
            final(buffer).wf(),
            final(buffer).text_bytes() == old(buffer).text_bytes(),
            final(buffer).spec_selections() == old(buffer).spec_selections(),
            final(buffer).spec_history() == old(buffer).spec_history(),
            match self {
                LocationLike::LocationColumnLine(loc) => r == *loc,
                LocationLike::LocationByteLine(loc) => ({
                    let s = old(buffer).text_bytes();
                    let l = clamped(loc.line.value as int, last_line_of(s) as int);
                    r.line.value == l && final(buffer).spec_cache().contains_key(l)
                        && r.offset.value == crate::shaped::col_of(
                        crate::shaped::line_clusters(final(buffer).spec_cache()[l]),
                        loc.offset.value as int,
                    )
                }),
                LocationLike::LocationColumnViewLine(loc) => r.line.value == clamped(
                    old(buffer).spec_first_view_line() + loc.line.value,
                    last_line_of(old(buffer).text_bytes()) as int,
                ) && r.offset == loc.offset,
                LocationLike::LocationByteViewLine(loc) => ({
                    let s = old(buffer).text_bytes();
                    let l = clamped(
                        old(buffer).spec_first_view_line() + loc.line.value,
                        last_line_of(s) as int,
                    );
                    r.line.value == l && final(buffer).spec_cache().contains_key(l)
                        && r.offset.value == crate::shaped::col_of(
                        crate::shaped::line_clusters(final(buffer).spec_cache()[l]),
                        loc.offset.value as int,
                    )
                }),
            },
    {
        match self {
            LocationLike::LocationColumnLine(loc) => *loc,
            LocationLike::LocationByteLine(loc) => buffer.column_location_of_byte_location(*loc),
            LocationLike::LocationColumnViewLine(loc) => {
                let line = buffer.line_of_view_line_snapped(loc.line);
                Location { line, offset: loc.offset }
            },
            LocationLike::LocationByteViewLine(loc) => {
                let line = buffer.line_of_view_line_snapped(loc.line);
                buffer.column_location_of_byte_location(Location { line, offset: loc.offset })
            },
        }
    }
}


impl BufferModel {
    /// Replace the whole text. The explicit style spans are dropped (the
    /// style defaults remain), the shaped-line cache is emptied, and the
    /// view is clamped to the new text; selections and history stay.
    pub fn set_text(&mut self, text: Text)
        requires
            old(self).wf(),
        ensures
            final(self).wf(),
            final(self).text_bytes() == text@,
            final(self).spec_cache() == Map::<int, ShapedLine>::empty(),
            final(self).spec_selections() == old(self).spec_selections(),
            final(self).spec_history() == old(self).spec_history(),
            final(self).spec_next_id() == old(self).spec_next_id(),
    {
        let old_len = self.text.byte_size();
        let new_len = text.byte_size();
        self.style.set_resize_with_default(
            Range { start: Byte { value: 0 }, end: old_len },
            new_len.value,
            old_len.value,
        );
        self.text = text;
        self.shaped_lines.clear();
        let last = self.text.last_line_index();
        if self.first_view_line.value > last.value {
            self.first_view_line = last;
        }
    }
}


// ================
// === Commands ===
// ================

/// A buffer command: what a host (a view layer, a keymap) asks the buffer to
/// do. One user action maps to one command, so one history snapshot and one
/// drift computation cover the whole action.
pub enum Command {
    Insert(Text),
    Paste(Vec<Text>),
    DeleteLeft,
    DeleteRight,
    DeleteWordLeft,
    DeleteWordRight,
    SetCursor(Location<Column, Line>),
    AddCursor(Location<Column, Line>),
    SetNewestSelectionEnd(Location<Column, Line>),
    SetOldestSelectionEnd(Location<Column, Line>),
    KeepFirstSelectionOnly,
    KeepLastSelectionOnly,
    KeepOldestSelectionOnly,
    KeepNewestSelectionOnly,
    KeepFirstCursorOnly,
    KeepLastCursorOnly,
    KeepOldestCursorOnly,
    KeepNewestCursorOnly,
    RemoveAllCursors,
    Undo,
    SetProperty(Vec<Range<Byte>>, Option<Property>),
    ModProperty(Vec<Range<Byte>>, Option<PropertyDiff>),
    SetPropertyDefault(Option<ResolvedProperty>),
    SetFirstViewLine(Line),
    ModFirstViewLine(LineDiff),
}

/// What a command produced: the edit summary for an editing command, the
/// resulting selections for a selection command, and nothing for the rest.
pub enum CommandOutput {
    Edited(Modification),
    Selected(Group),
    Done,
}

/// Whether a command edits the text (and thus takes one history snapshot).
pub open spec fn is_edit_command(c: &Command) -> bool {
    c is Insert || c is Paste || c is DeleteLeft || c is DeleteRight || c is DeleteWordLeft
        || c is DeleteWordRight
}

/// Whether a command only reads or writes state beside the text.
pub open spec fn is_plain_command(c: &Command) -> bool {
    c is SetProperty || c is ModProperty || c is SetPropertyDefault || c is SetFirstViewLine
        || c is ModFirstViewLine
}

impl BufferModel {
    /// Apply one command: edits go through the batch edit engine (taking the
    /// history snapshot and installing the resulting cursors), selection
    /// commands install and return the new selections, and the rest mutate
    /// the addressed part of the buffer directly.
    #[verifier::rlimit(100)]
    #[verifier::spinoff_prover]
    pub fn apply_command(&mut self, command: Command) -> (r: CommandOutput)
        requires
            old(self).wf(),
            old(self).spec_next_id() < usize::MAX,
        ensures
            final(self).wf(),
            is_edit_command(&command) ==> match r {
                CommandOutput::Edited(m) => final(self).spec_history().len() == old(self).spec_history().len() + 1 && m.changes@.len() == old(self).spec_selections().len()
                    && final(self).text_bytes() == applied_changes(
                    old(self).text_bytes(),
                    m.changes@,
                    m.changes@.len() as int,
                ) && m.byte_offset.value == final(self).text_bytes().len() - old(self).text_bytes().len() && final(self).spec_selections() == m.selection_group@,
                _ => false,
            },
            command is Undo ==> final(self).spec_history().len() == (if old(self).spec_history().len() == 0 {
                0int
            } else {
                old(self).spec_history().len() - 1
            }) && (old(self).spec_history().len() > 0 ==> final(self).text_bytes() == old(self).spec_history().last().text@ && match r {
                CommandOutput::Selected(g) => g@ == old(self).spec_history().last().selection@
                    && final(self).spec_selections() == g@,
                _ => false,
            }) && (old(self).spec_history().len() == 0 ==> final(self).text_bytes() == old(self).text_bytes()),
            is_plain_command(&command) ==> r is Done && final(self).text_bytes() == old(self).text_bytes(),
            !is_edit_command(&command) && !is_plain_command(&command) && !(command is Undo) ==> match r {
                CommandOutput::Selected(g) => final(self).text_bytes() == old(self).text_bytes()
                    && final(self).spec_selections() == g@,
                _ => false,
            },
    {
        match command {
            Command::Insert(text) => CommandOutput::Edited(self.insert(&text)),
            Command::Paste(chunks) => CommandOutput::Edited(self.paste(&chunks)),
            Command::DeleteLeft => CommandOutput::Edited(self.delete_left()),
            Command::DeleteRight => CommandOutput::Edited(self.delete_right()),
            Command::DeleteWordLeft => CommandOutput::Edited(self.delete_word_left()),
            Command::DeleteWordRight => CommandOutput::Edited(self.delete_word_right()),
            Command::SetCursor(location) => {
                let ghost sels = self.spec_selections();
                let group = self.set_cursor(location);
                proof {
                    if sels.len() > 0 {
                        assert(sels[sels.len() - 1].id.value < old(self).spec_next_id());
                    }
                }
                self.set_selection(&group);
                CommandOutput::Selected(group)
            },
            Command::AddCursor(location) => {
                let ghost sels = self.spec_selections();
                let ghost next0 = self.spec_next_id();
                let group = self.add_cursor(location);
                proof {
                    let cursor = Selection {
                        start: location,
                        end: location,
                        id: Id { value: next0 as usize },
                    };
                    crate::selection::lemma_merge_keeps_unique_ids(sels, cursor);
                    let pred = |s: Selection<Location<Column, Line>>|
                        s.id.value != cursor.id.value;
                    assert forall|i: int| 0 <= i < group@.len() implies (
                    #[trigger] group@[i]).id.value < usize::MAX by {
                        let f = sels.filter(pred);
                        if i < f.len() {
                            crate::selection::lemma_filter_element_origin(sels, pred, i);
                            let p = choose|p: int| 0 <= p < sels.len() && f[i] == sels[p];
                            assert(sels[p].id.value < next0);
                        } else {
                            assert(group@[i] == cursor);
                        }
                    }
                }
                self.set_selection(&group);
                CommandOutput::Selected(group)
            },
            Command::SetNewestSelectionEnd(location) => {
                let group = self.set_newest_selection_end(location);
                self.install_unique(group)
            },
            Command::SetOldestSelectionEnd(location) => {
                let group = self.set_oldest_selection_end(location);
                self.install_unique(group)
            },
            Command::KeepFirstSelectionOnly => {
                let group = self.first_selection();
                self.install_unique(group)
            },
            Command::KeepLastSelectionOnly => {
                let group = self.last_selection();
                self.install_unique(group)
            },
            Command::KeepOldestSelectionOnly => {
                let group = self.oldest_selection();
                self.install_unique(group)
            },
            Command::KeepNewestSelectionOnly => {
                let group = self.newest_selection();
                self.install_unique(group)
            },
            Command::KeepFirstCursorOnly => {
                let group = self.first_cursor();
                self.install_unique(group)
            },
            Command::KeepLastCursorOnly => {
                let group = self.last_cursor();
                self.install_unique(group)
            },
            Command::KeepOldestCursorOnly => {
                let group = self.oldest_cursor();
                self.install_unique(group)
            },
            Command::KeepNewestCursorOnly => {
                let group = self.newest_cursor();
                self.install_unique(group)
            },
            Command::RemoveAllCursors => {
                let group = Group::new();
                self.set_selection(&group);
                CommandOutput::Selected(group)
            },
            Command::Undo => {
                match self.undo() {
                    Some(group) => {
                        self.set_selection(&group);
                        CommandOutput::Selected(group)
                    },
                    None => CommandOutput::Selected(Group::new()),
                }
            },
            Command::SetProperty(ranges, property) => {
                self.set_property(&ranges, property);
                CommandOutput::Done
            },
            Command::ModProperty(ranges, property) => {
                self.mod_property(&ranges, property);
                CommandOutput::Done
            },
            Command::SetPropertyDefault(property) => {
                self.set_property_default(property);
                CommandOutput::Done
            },
            Command::SetFirstViewLine(line) => {
                self.set_first_view_line(line);
                CommandOutput::Done
            },
            Command::ModFirstViewLine(diff) => {
                // The extreme negative difference clamps to the first line,
                // like every other out-of-range move.
                let d = if diff.value == i128::MIN {
                    LineDiff { value: i128::MIN + 1 }
                } else {
                    diff
                };
                let _line = self.mod_first_view_line(d);
                CommandOutput::Done
            },
        }
    }

    /// Install a group of selections whose identities are pairwise distinct
    /// (groups of at most one always are).
    fn install_unique(&mut self, group: Group) -> (r: CommandOutput)
        requires
            old(self).wf(),
            unique_ids(group@),
            forall|i: int|
                0 <= i < group@.len() ==> (#[trigger] group@[i]).id.value < usize::MAX,
        ensures
            final(self).wf(),
            final(self).text_bytes() == old(self).text_bytes(),
            final(self).spec_selections() == group@,
            match r {
                CommandOutput::Selected(g) => g@ == group@,
                _ => false,
            },
    {
        self.set_selection(&group);
        CommandOutput::Selected(group)
    }
}

} // verus!

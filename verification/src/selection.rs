//! The selection model: selections and cursors with stable identities, and
//! ordered groups of them.

use vstd::prelude::*;

use crate::unit::Byte;
use crate::unit::Column;
use crate::unit::Line;
use crate::unit::Location;
use crate::unit::Range;

verus! {

/// A stable selection identity. Identities are assigned monotonically by the
/// buffer and never reused within a buffer's lifetime.
#[derive(Clone, Copy, Debug, PartialEq, Eq, Structural)]
pub struct Id {
    pub value: usize,
}

/// A selection: a start and an end point and a stable identity. A selection
/// whose start equals its end is a cursor.
#[derive(Clone, Copy, Debug, PartialEq, Eq, Structural)]
pub struct Selection<T> {
    pub start: T,
    pub end: T,
    pub id: Id,
}

impl<T> Selection<T> {
    /// Constructor.
    pub fn new(start: T, end: T, id: Id) -> (r: Selection<T>)
        ensures
            r.start == start,
            r.end == end,
            r.id == id,
    {
        Selection { start, end, id }
    }
}

impl<T: Copy> Selection<T> {
    /// A cursor at the given point.
    pub fn new_cursor(location: T, id: Id) -> (r: Selection<T>)
        ensures
            r.start == location,
            r.end == location,
            r.id == id,
    {
        Selection { start: location, end: location, id }
    }

    /// The same identity, collapsed to a cursor at the given point.
    pub fn with_location(self, location: T) -> (r: Selection<T>)
        ensures
            r.start == location,
            r.end == location,
            r.id == self.id,
    {
        Selection { start: location, end: location, id: self.id }
    }

    /// The same identity, collapsed to a cursor at this selection's start.
    pub fn snap_to_start(self) -> (r: Selection<T>)
        ensures
            r.start == self.start,
            r.end == self.start,
            r.id == self.id,
    {
        Selection { start: self.start, end: self.start, id: self.id }
    }
}

impl Selection<Location<Column, Line>> {
    /// Whether this selection is a cursor.
    pub fn is_cursor(&self) -> (r: bool)
        ensures
            r == (self.start == self.end),
    {
        self.start.line.value == self.end.line.value && self.start.offset.value
            == self.end.offset.value
    }
}

impl Selection<Byte> {
    /// The byte range the selection covers, in increasing order.
    pub fn range(&self) -> (r: Range<Byte>)
        ensures
            r.start.value == vstd::math::min(self.start.value as int, self.end.value as int),
            r.end.value == vstd::math::max(self.start.value as int, self.end.value as int),
    {
        if self.start.value <= self.end.value {
            Range { start: self.start, end: self.end }
        } else {
            Range { start: self.end, end: self.start }
        }
    }
}

impl Selection<Location<Byte, Line>> {
    /// The selection with its ends in increasing location order.
    pub fn normalized(self) -> (r: Selection<Location<Byte, Line>>)
        ensures
            crate::unit::loc_le(r.start, r.end),
            r.id == self.id,
            (r.start == self.start && r.end == self.end) || (r.start == self.end && r.end
                == self.start),
    {
        if crate::unit::location_le(self.start, self.end) {
            self
        } else {
            Selection { start: self.end, end: self.start, id: self.id }
        }
    }
}

// =============
// === Group ===
// =============

/// Whether all selections of a sequence carry distinct identities.
pub open spec fn unique_ids(s: Seq<Selection<Location<Column, Line>>>) -> bool {
    forall|i: int, j: int| 0 <= i < j < s.len() ==> s[i].id.value != s[j].id.value
}

/// An ordered collection of selections. The order is the recency order:
/// the most recently added selection is last. No two selections of a group
/// share an identity.
pub struct Group {
    items: Vec<Selection<Location<Column, Line>>>,
}

impl View for Group {
    type V = Seq<Selection<Location<Column, Line>>>;

    closed spec fn view(&self) -> Seq<Selection<Location<Column, Line>>> {
        self.items@
    }
}

impl Clone for Group {
    /// A clone holds the same selections.
    fn clone(&self) -> (r: Group)
        ensures
            r@ == self@,
    {
        let mut items: Vec<Selection<Location<Column, Line>>> = Vec::new();
        let mut i: usize = 0;
        while i < self.items.len()
            invariant
                i <= self.items.len(),
                items@ == self.items@.subrange(0, i as int),
            decreases self.items.len() - i,
        {
            items.push(self.items[i]);
            proof {
                assert(items@ =~= self.items@.subrange(0, i + 1));
            }
            i = i + 1;
        }
        proof {
            assert(items@ =~= self.items@);
        }
        Group { items }
    }
}

impl Group {
    /// An empty group.
    pub fn new() -> (r: Group)
        ensures
            r@ == Seq::<Selection<Location<Column, Line>>>::empty(),
    {
        Group { items: Vec::new() }
    }

    /// A group holding one selection.
    pub fn from_selection(selection: Selection<Location<Column, Line>>) -> (r: Group)
        ensures
            r@ == seq![selection],
    {
        let mut items = Vec::new();
        items.push(selection);
        proof {
            assert(items@ =~= seq![selection]);
        }
        Group { items }
    }

    /// The number of selections in the group.
    pub fn len(&self) -> (r: usize)
        ensures
            r == self@.len(),
    {
        self.items.len()
    }

    /// Whether the group holds no selection.
    pub fn is_empty(&self) -> (r: bool)
        ensures
            r == (self@.len() == 0),
    {
        self.items.len() == 0
    }

    /// The selection at the given recency position.
    pub fn get(&self, i: usize) -> (r: Selection<Location<Column, Line>>)
        requires
            i < self@.len(),
        ensures
            r == self@[i as int],
    {
        self.items[i]
    }

    /// The first selection of the group: the least recently added one.
    pub fn first(&self) -> (r: Option<Selection<Location<Column, Line>>>)
        ensures
            self@.len() == 0 ==> r is None,
            self@.len() > 0 ==> r == Some(self@[0]),
    {
        if self.items.len() > 0 {
            Some(self.items[0])
        } else {
            None
        }
    }

    /// The last selection of the group: the most recently added one.
    pub fn last(&self) -> (r: Option<Selection<Location<Column, Line>>>)
        ensures
            self@.len() == 0 ==> r is None,
            self@.len() > 0 ==> r == Some(self@[self@.len() - 1]),
    {
        if self.items.len() > 0 {
            Some(self.items[self.items.len() - 1])
        } else {
            None
        }
    }

    /// The least recently added selection. The group's order is the recency
    /// order, so this is its first selection.
    pub fn oldest(&self) -> (r: Option<Selection<Location<Column, Line>>>)
        ensures
            self@.len() == 0 ==> r is None,
            self@.len() > 0 ==> r == Some(self@[0]),
    {
        self.first()
    }

    /// The most recently added selection. The group's order is the recency
    /// order, so this is its last selection.
    pub fn newest(&self) -> (r: Option<Selection<Location<Column, Line>>>)
        ensures
            self@.len() == 0 ==> r is None,
            self@.len() > 0 ==> r == Some(self@[self@.len() - 1]),
    {
        self.last()
    }

    /// Move the end of the most recently added selection, leaving the others
    /// untouched.
    pub fn set_newest_selection_end(&mut self, location: Location<Column, Line>)
        ensures
            old(self)@.len() == 0 ==> final(self)@ == old(self)@,
            old(self)@.len() > 0 ==> final(self)@ == old(self)@.update(
                old(self)@.len() - 1,
                Selection {
                    start: old(self)@[old(self)@.len() - 1].start,
                    end: location,
                    id: old(self)@[old(self)@.len() - 1].id,
                },
            ),
    {
        let n = self.items.len();
        if n > 0 {
            let s = self.items[n - 1];
            self.items.set(n - 1, Selection { start: s.start, end: location, id: s.id });
        }
    }

    /// Move the end of the least recently added selection, leaving the others
    /// untouched.
    pub fn set_oldest_selection_end(&mut self, location: Location<Column, Line>)
        ensures
            old(self)@.len() == 0 ==> final(self)@ == old(self)@,
            old(self)@.len() > 0 ==> final(self)@ == old(self)@.update(
                0,
                Selection { start: old(self)@[0].start, end: location, id: old(self)@[0].id },
            ),
    {
        if self.items.len() > 0 {
            let s = self.items[0];
            self.items.set(0, Selection { start: s.start, end: location, id: s.id });
        }
    }

    /// Every selection collapsed to a cursor at its start point.
    pub fn snap_selections_to_start(&self) -> (r: Group)
        ensures
            r@.len() == self@.len(),
            forall|i: int|
                0 <= i < self@.len() ==> #[trigger] r@[i] == (Selection {
                    start: self@[i].start,
                    end: self@[i].start,
                    id: self@[i].id,
                }),
    {
        let mut items: Vec<Selection<Location<Column, Line>>> = Vec::new();
        let mut i: usize = 0;
        while i < self.items.len()
            invariant
                i <= self.items.len(),
                items@.len() == i,
                forall|j: int|
                    0 <= j < i ==> #[trigger] items@[j] == (Selection {
                        start: self.items@[j].start,
                        end: self.items@[j].start,
                        id: self.items@[j].id,
                    }),
            decreases self.items.len() - i,
        {
            items.push(self.items[i].snap_to_start());
            i = i + 1;
        }
        Group { items }
    }

    /// Add a selection as the most recent one. A selection already carrying
    /// the same identity is dropped: the later instance wins, and the recency
    /// order of the rest is preserved.
    pub fn merge(&mut self, selection: Selection<Location<Column, Line>>)
        ensures
            final(self)@ == old(self)@.filter(
                |s: Selection<Location<Column, Line>>| s.id.value != selection.id.value,
            ).push(selection),
    {
        let ghost pred = |s: Selection<Location<Column, Line>>| s.id.value != selection.id.value;
        let mut items: Vec<Selection<Location<Column, Line>>> = Vec::new();
        let mut i: usize = 0;
        proof {
            assert(self.items@.subrange(0, 0).filter(pred) =~= Seq::empty()) by {
                reveal(Seq::filter);
            }
        }
        while i < self.items.len()
            invariant
                i <= self.items.len(),
                items@ == self.items@.subrange(0, i as int).filter(pred),
                pred == (|s: Selection<Location<Column, Line>>| s.id.value != selection.id.value),
            decreases self.items.len() - i,
        {
            let ghost pre = self.items@.subrange(0, i as int);
            let s = self.items[i];
            if s.id.value != selection.id.value {
                items.push(s);
            }
            proof {
                let cur = self.items@.subrange(0, i + 1);
                assert(cur.drop_last() =~= pre);
                assert(cur.last() == s);
                reveal(Seq::filter);
                assert(cur.filter(pred) == if pred(s) {
                    pre.filter(pred).push(s)
                } else {
                    pre.filter(pred)
                });
            }
            i = i + 1;
        }
        proof {
            assert(self.items@.subrange(0, self.items@.len() as int) =~= self.items@);
        }
        items.push(selection);
        self.items = items;
    }
}

/// Merging preserves the uniqueness of identities within a group.
///
/// Law: adding a selection to a group whose selections carry distinct
/// identities yields a group whose selections carry distinct identities.
pub proof fn lemma_merge_keeps_unique_ids(
    g: Seq<Selection<Location<Column, Line>>>,
    selection: Selection<Location<Column, Line>>,
)
    requires
        unique_ids(g),
    ensures
        unique_ids(
            g.filter(|s: Selection<Location<Column, Line>>| s.id.value != selection.id.value).push(
                selection,
            ),
        ),
    decreases g.len(),
{
    let pred = |s: Selection<Location<Column, Line>>| s.id.value != selection.id.value;
    let f = g.filter(pred);
    assert forall|i: int| 0 <= i < f.len() implies pred(f[i]) by {
        g.lemma_filter_pred(pred, i);
    }
    lemma_filter_keeps_unique_ids(g, pred);
    let out = f.push(selection);
    assert forall|i: int, j: int| 0 <= i < j < out.len() implies out[i].id.value
        != out[j].id.value by {
        if j < f.len() {
        } else {
            assert(out[j] == selection);
            assert(pred(f[i]));
        }
    }
}

/// Filtering a sequence of selections with distinct identities keeps the
/// identities distinct.
proof fn lemma_filter_keeps_unique_ids(
    g: Seq<Selection<Location<Column, Line>>>,
    pred: spec_fn(Selection<Location<Column, Line>>) -> bool,
)
    requires
        unique_ids(g),
    ensures
        unique_ids(g.filter(pred)),
    decreases g.len(),
{
    reveal(Seq::filter);
    if g.len() > 0 {
        assert(g.drop_last() =~= g.subrange(0, g.len() - 1));
        lemma_filter_keeps_unique_ids(g.drop_last(), pred);
        let f = g.filter(pred);
        let fd = g.drop_last().filter(pred);
        assert forall|i: int| 0 <= i < fd.len() implies exists|k: int|
            0 <= k < g.len() - 1 && #[trigger] fd[i] == g[k] by {
            lemma_filter_element_origin(g.drop_last(), pred, i);
        }
        if pred(g.last()) {
            assert(f == fd.push(g.last()));
            assert forall|i: int, j: int| 0 <= i < j < f.len() implies f[i].id.value
                != f[j].id.value by {
                if j == f.len() - 1 {
                    let k = choose|k: int| 0 <= k < g.len() - 1 && f[i] == g[k];
                    assert(g[k].id.value != g[g.len() - 1].id.value);
                }
            }
        }
    }
}

/// Filtering with a predicate that holds everywhere keeps the sequence.
pub proof fn lemma_filter_identity(
    g: Seq<Selection<Location<Column, Line>>>,
    pred: spec_fn(Selection<Location<Column, Line>>) -> bool,
)
    requires
        forall|i: int| 0 <= i < g.len() ==> pred(#[trigger] g[i]),
    ensures
        g.filter(pred) == g,
    decreases g.len(),
{
    reveal(Seq::filter);
    if g.len() > 0 {
        assert(g.drop_last() =~= g.subrange(0, g.len() - 1));
        lemma_filter_identity(g.drop_last(), pred);
        assert(pred(g[g.len() - 1]));
        assert(g.filter(pred) =~= g);
    }
}

/// Every element of a filtered sequence comes from the original one.
pub proof fn lemma_filter_element_origin(
    g: Seq<Selection<Location<Column, Line>>>,
    pred: spec_fn(Selection<Location<Column, Line>>) -> bool,
    i: int,
)
    requires
        0 <= i < g.filter(pred).len(),
    ensures
        exists|k: int| 0 <= k < g.len() && g.filter(pred)[i] == g[k],
    decreases g.len(),
{
    reveal(Seq::filter);
    if g.len() > 0 {
        let fd = g.drop_last().filter(pred);
        if i < fd.len() {
            lemma_filter_element_origin(g.drop_last(), pred, i);
            let k = choose|k: int| 0 <= k < g.drop_last().len() && fd[i] == g.drop_last()[k];
            assert(g.drop_last()[k] == g[k]);
            assert(g.filter(pred)[i] == fd[i]);
        } else {
            assert(g.filter(pred)[i] == g.last());
            assert(g.filter(pred)[i] == g[g.len() - 1]);
        }
    }
}

} // verus!

//! Tests of selections and selection groups: identities, recency order,
//! merging, and cursor collapsing.

use text_buffer::selection::Group;
use text_buffer::selection::Id;
use text_buffer::selection::Selection;
use text_buffer::unit::Byte;
use text_buffer::unit::Column;
use text_buffer::unit::Line;
use text_buffer::unit::Location;

fn loc(line: usize, column: usize) -> Location<Column, Line> {
    Location::new(Line::new(line), Column::new(column))
}

fn sel(line: usize, start: usize, end: usize, id: usize) -> Selection<Location<Column, Line>> {
    Selection::new(loc(line, start), loc(line, end), Id { value: id })
}

#[test]
fn group_keeps_recency_order() {
    let mut g = Group::new();
    g.merge(sel(0, 0, 0, 0));
    g.merge(sel(0, 3, 5, 1));
    g.merge(sel(1, 0, 0, 2));
    assert_eq!(g.len(), 3);
    assert_eq!(g.first().unwrap().id.value, 0);
    assert_eq!(g.last().unwrap().id.value, 2);
    assert_eq!(g.oldest().unwrap().id.value, 0);
    assert_eq!(g.newest().unwrap().id.value, 2);
}

#[test]
fn merge_deduplicates_by_identity() {
    let mut g = Group::new();
    g.merge(sel(0, 0, 0, 0));
    g.merge(sel(0, 3, 5, 1));
    // A later instance with the same identity wins and becomes the newest.
    g.merge(sel(2, 1, 1, 0));
    assert_eq!(g.len(), 2);
    assert_eq!(g.get(0).id.value, 1);
    assert_eq!(g.get(1).id.value, 0);
    assert_eq!(g.get(1).start.line.value, 2);
}

#[test]
fn cursors_and_collapsing() {
    let c = Selection::new_cursor(loc(1, 2), Id { value: 7 });
    assert!(c.is_cursor());
    let s = sel(0, 1, 4, 3);
    assert!(!s.is_cursor());
    let snapped = s.snap_to_start();
    assert!(snapped.is_cursor());
    assert_eq!(snapped.start.offset.value, 1);
    assert_eq!(snapped.id.value, 3);
    let mut g = Group::new();
    g.merge(s);
    g.merge(sel(1, 2, 6, 4));
    let collapsed = g.snap_selections_to_start();
    assert_eq!(collapsed.len(), 2);
    assert_eq!(collapsed.get(1).end.offset.value, 2);
}

#[test]
fn group_end_mutations() {
    let mut g = Group::new();
    g.merge(sel(0, 0, 1, 0));
    g.merge(sel(0, 4, 5, 1));
    g.set_newest_selection_end(loc(0, 7));
    assert_eq!(g.get(1).end.offset.value, 7);
    assert_eq!(g.get(0).end.offset.value, 1);
    g.set_oldest_selection_end(loc(0, 2));
    assert_eq!(g.get(0).end.offset.value, 2);
    assert_eq!(g.get(1).end.offset.value, 7);
}

#[test]
fn byte_selection_range_orders_ends() {
    let s = Selection::new(Byte::new(9), Byte::new(4), Id { value: 0 });
    let r = s.range();
    assert_eq!((r.start.value, r.end.value), (4, 9));
}

#[test]
fn normalized_orders_locations() {
    let s = Selection::new(
        Location::new(Line::new(2), Byte::new(1)),
        Location::new(Line::new(1), Byte::new(5)),
        Id { value: 0 },
    );
    let n = s.normalized();
    assert_eq!(n.start.line.value, 1);
    assert_eq!(n.end.line.value, 2);
}

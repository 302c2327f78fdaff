//! Tests of the buffer model: the batch edit engine, selections, the
//! shaped-line cache, the view window, and undo.

use text_buffer::buffer::BufferModel;
use text_buffer::buffer::Command;
use text_buffer::buffer::CommandOutput;
use text_buffer::buffer::LocationLike;
use text_buffer::buffer::Property;
use text_buffer::buffer::PropertyDiff;
use text_buffer::buffer::RangeLike;
use text_buffer::buffer::ResolvedProperty;
use text_buffer::selection::Group;
use text_buffer::shaped::ShapedGlyph;
use text_buffer::shaped::ShapedLine;
use text_buffer::shaped::ShapedGlyphSet;
use text_buffer::style::NonVariableFaceHeader;
use text_buffer::style::Size;
use text_buffer::style::Style;
use text_buffer::style::Weight;
use text_buffer::style::Width;
use text_buffer::text::Text;
use text_buffer::unit::Byte;
use text_buffer::unit::Column;
use text_buffer::unit::Line;
use text_buffer::unit::LineDiff;
use text_buffer::unit::Location;
use text_buffer::unit::Range;
use text_buffer::unit::ViewLine;

fn buffer_with(text: &str) -> BufferModel {
    let mut b = BufferModel::new();
    b.set_text(Text::from_str(text));
    b
}

fn loc(line: usize, column: usize) -> Location<Column, Line> {
    Location::new(Line::new(line), Column::new(column))
}

fn cursor_at(b: &mut BufferModel, location: Location<Column, Line>) {
    let group = b.set_cursor(location);
    b.set_selection(&group);
}

fn add_cursor_at(b: &mut BufferModel, location: Location<Column, Line>) {
    let group = b.add_cursor(location);
    b.set_selection(&group);
}

fn cursor_bytes(b: &mut BufferModel) -> Vec<usize> {
    b.byte_selections().iter().map(|s| s.start.value).collect()
}

#[test]
fn insert_into_empty_buffer() {
    // An insert at the start of an empty buffer puts the cursor after the
    // inserted bytes.
    let mut b = BufferModel::new();
    cursor_at(&mut b, loc(0, 0));
    let m = b.insert(&Text::from_str("ab"));
    assert_eq!(b.text().to_string(), "ab");
    assert_eq!(m.changes.len(), 1);
    assert_eq!(cursor_bytes(&mut b), vec![2]);
    assert_eq!(m.byte_offset.value, 2);
}

#[test]
fn insert_at_two_cursors_drifts_the_second() {
    // Two cursors in one batch: the second one's recorded offset is the
    // pre-edit one, and both land after their inserted bytes.
    let mut b = buffer_with("hello\nworld");
    cursor_at(&mut b, loc(0, 0));
    add_cursor_at(&mut b, loc(1, 0));
    let m = b.insert(&Text::from_str("X"));
    assert_eq!(b.text().to_string(), "Xhello\nXworld");
    assert_eq!(m.changes.len(), 2);
    // The second change applied at the drifted offset 7 == 6 + 1.
    assert_eq!(m.changes[1].change.range.start.value, 7);
    assert_eq!(m.byte_offset.value, 2);
    assert_eq!(cursor_bytes(&mut b), vec![1, 8]);
}

#[test]
fn delete_left_merges_lines() {
    // Deleting left at a line start removes the newline before it.
    let mut b = buffer_with("line1\nline2\nline3");
    // Populate the shaped-line cache so that the re-indexing is exercised.
    assert_eq!(b.line_last_column(Line::new(0)).value, 5);
    assert_eq!(b.line_last_column(Line::new(1)).value, 5);
    assert_eq!(b.line_last_column(Line::new(2)).value, 5);
    cursor_at(&mut b, loc(1, 0));
    let m = b.delete_left();
    assert_eq!(b.text().to_string(), "line1line2\nline3");
    assert_eq!(m.changes.len(), 1);
    assert_eq!(m.changes[0].line_diff.value, -1);
    assert_eq!(m.changes[0].change.range.start.value, 5);
    assert_eq!(m.changes[0].change.range.end.value, 6);
    assert_eq!(m.byte_offset.value, -1);
    // The merged line and the shifted one answer with fresh shapes.
    assert_eq!(b.line_last_column(Line::new(0)).value, 10);
    assert_eq!(b.line_last_column(Line::new(1)).value, 5);
    assert_eq!(cursor_bytes(&mut b), vec![5]);
}

#[test]
fn paste_pairs_chunks_with_selections() {
    // More chunks than selections: the extra chunk is dropped.
    let mut b = buffer_with("xy");
    cursor_at(&mut b, loc(0, 0));
    add_cursor_at(&mut b, loc(0, 1));
    let chunks = vec![
        Text::from_str("A"),
        Text::from_str("B"),
        Text::from_str("C"),
    ];
    let m = b.paste(&chunks);
    assert_eq!(b.text().to_string(), "AxBy");
    assert_eq!(m.changes.len(), 2);
    assert_eq!(m.byte_offset.value, 2);
}

#[test]
fn paste_broadcasts_a_single_chunk() {
    // One chunk, three selections: every selection receives it.
    let mut b = buffer_with("xyz");
    cursor_at(&mut b, loc(0, 0));
    add_cursor_at(&mut b, loc(0, 1));
    add_cursor_at(&mut b, loc(0, 2));
    let chunks = vec![Text::from_str("A")];
    let m = b.paste(&chunks);
    assert_eq!(b.text().to_string(), "AxAyAz");
    assert_eq!(m.changes.len(), 3);
    assert_eq!(m.byte_offset.value, 3);
}

#[test]
fn paste_fills_extra_selections_with_empty_text() {
    let mut b = buffer_with("xy");
    cursor_at(&mut b, loc(0, 0));
    add_cursor_at(&mut b, loc(0, 1));
    let chunks = vec![Text::from_str("A"), Text::from_str("B"), ];
    let m = b.paste(&chunks);
    assert_eq!(b.text().to_string(), "AxBy");
    assert_eq!(m.changes.len(), 2);
    // Two chunks for three selections leaves the third selection empty.
    let mut b2 = buffer_with("xyz");
    cursor_at(&mut b2, loc(0, 0));
    add_cursor_at(&mut b2, loc(0, 1));
    add_cursor_at(&mut b2, loc(0, 2));
    let m2 = b2.paste(&chunks);
    assert_eq!(b2.text().to_string(), "AxByz");
    assert_eq!(m2.changes.len(), 3);
}

#[test]
fn undo_restores_text_style_and_selection() {
    let mut b = buffer_with("abc");
    cursor_at(&mut b, loc(0, 1));
    let before_selection: Vec<usize> = cursor_bytes(&mut b);
    b.set_property(
        &vec![Range::new(Byte::new(0), Byte::new(2))],
        Some(Property::Size(Some(Size::new(20000)))),
    );
    let style_before = b.style();
    let _ = b.insert(&Text::from_str("XYZ"));
    assert_eq!(b.text().to_string(), "aXYZbc");
    let restored = b.undo().expect("undo should pop the snapshot");
    b.set_selection(&restored);
    assert_eq!(b.text().to_string(), "abc");
    assert_eq!(cursor_bytes(&mut b), before_selection);
    // The style is restored byte for byte.
    let style_after = b.style();
    for i in 0..3 {
        assert_eq!(style_after.style_at(i), style_before.style_at(i));
    }
    // Nothing left to undo.
    assert!(b.undo().is_none());
}

#[test]
fn delete_right_removes_next_grapheme() {
    let mut b = buffer_with("h\u{e9}llo");
    cursor_at(&mut b, loc(0, 1));
    let m = b.delete_right();
    assert_eq!(b.text().to_string(), "hllo");
    assert_eq!(m.byte_offset.value, -2);
}

#[test]
fn delete_word_left_removes_word() {
    let mut b = buffer_with("one two");
    cursor_at(&mut b, loc(0, 7));
    let _ = b.delete_word_left();
    assert_eq!(b.text().to_string(), "one ");
    let mut b2 = buffer_with("one two");
    cursor_at(&mut b2, loc(0, 0));
    let _ = b2.delete_word_right();
    assert_eq!(b2.text().to_string(), " two");
}

#[test]
fn column_byte_round_trip() {
    // Column conversions go through the shaped line's cluster table; on a
    // grapheme boundary the round trip is exact.
    let mut b = buffer_with("h\u{e9}llo");
    let byte_loc = b.byte_location_of_column_location(loc(0, 2));
    assert_eq!((byte_loc.line.value, byte_loc.offset.value), (0, 3));
    let col_loc = b.column_location_of_byte_location(byte_loc);
    assert_eq!((col_loc.line.value, col_loc.offset.value), (0, 2));
    // A column beyond the last glyph snaps to the line's end.
    let end_loc = b.byte_location_of_column_location(loc(0, 99));
    assert_eq!(end_loc.offset.value, 6);
}

#[test]
fn installed_shapes_drive_conversions() {
    // An externally shaped line with cumulative cluster correction: two runs
    // starting at in-line offsets 0 and 2, each with run-relative clusters.
    let mut b = buffer_with("abcd\nef");
    let header = NonVariableFaceHeader {
        weight: Weight::new(700),
        width: Width::new(5),
        style: Style::Normal,
    };
    let run = |clusters: &[usize]| ShapedGlyphSet {
        units_per_em: 1000,
        ascender: 800,
        descender: -200,
        line_gap: 0,
        non_variable_variations: header,
        glyphs: clusters
            .iter()
            .map(|c| ShapedGlyph { cluster: *c, glyph_id: 7, x_advance: 10, y_advance: 0 })
            .collect(),
    };
    b.install_shaped_line(
        Line::new(0),
        vec![(Byte::new(0), run(&[0, 1])), (Byte::new(2), run(&[0, 1]))],
    );
    // Clusters are 0, 1, 2, 3 after the cumulative correction.
    assert_eq!(b.line_last_column(Line::new(0)).value, 4);
    let byte_loc = b.byte_location_of_column_location(loc(0, 3));
    assert_eq!(byte_loc.offset.value, 3);
}

#[test]
fn cache_keeps_untouched_lines() {
    // A distinctive installed shape on a line after the edited one survives
    // an edit that does not shift lines, and is re-indexed by one that does.
    let mut b = buffer_with("ab\ncd\nef");
    let header = NonVariableFaceHeader {
        weight: Weight::new(400),
        width: Width::new(5),
        style: Style::Normal,
    };
    let set = ShapedGlyphSet {
        units_per_em: 1000,
        ascender: 800,
        descender: -200,
        line_gap: 0,
        non_variable_variations: header,
        glyphs: vec![ShapedGlyph { cluster: 0, glyph_id: 9, x_advance: 10, y_advance: 0 }],
    };
    // One distinctive glyph on line 2 ("ef" would shape to two glyphs).
    b.install_shaped_line(Line::new(2), vec![(Byte::new(0), set)]);
    assert_eq!(b.line_last_column(Line::new(2)).value, 1);
    // Edit inside line 0: no line shift; line 2 keeps the installed shape.
    cursor_at(&mut b, loc(0, 0));
    let _ = b.insert(&Text::from_str("x"));
    assert_eq!(b.text().to_string(), "xab\ncd\nef");
    assert_eq!(b.line_last_column(Line::new(2)).value, 1);
    // An edit that adds a line shifts the installed shape to line 3.
    cursor_at(&mut b, loc(0, 0));
    let _ = b.insert(&Text::from_str("new\n"));
    assert_eq!(b.text().to_string(), "new\nxab\ncd\nef");
    assert_eq!(b.line_last_column(Line::new(3)).value, 1);
    // The edited line itself is reshaped freshly.
    assert_eq!(b.line_last_column(Line::new(0)).value, 3);
}

#[test]
fn selection_recency_operations() {
    let mut b = buffer_with("abcdef");
    cursor_at(&mut b, loc(0, 1));
    add_cursor_at(&mut b, loc(0, 3));
    add_cursor_at(&mut b, loc(0, 5));
    let sels = b.selections();
    assert_eq!(sels.len(), 3);
    let oldest = b.oldest_selection();
    let newest = b.newest_selection();
    assert_eq!(oldest.first().unwrap().start.offset.value, 1);
    assert_eq!(newest.first().unwrap().start.offset.value, 5);
    let first = b.first_selection();
    let last = b.last_selection();
    assert_eq!(first.first().unwrap().start.offset.value, 1);
    assert_eq!(last.first().unwrap().start.offset.value, 5);
    let newest_cursor = b.newest_cursor();
    assert_eq!(newest_cursor.len(), 1);
    // Moving the newest selection's end only touches that selection.
    let moved = b.set_newest_selection_end(loc(0, 6));
    assert_eq!(moved.get(2).end.offset.value, 6);
    assert_eq!(moved.get(0).end.offset.value, 1);
    let moved_oldest = b.set_oldest_selection_end(loc(0, 2));
    assert_eq!(moved_oldest.get(0).end.offset.value, 2);
}

#[test]
fn set_cursor_reuses_newest_identity() {
    let mut b = buffer_with("abc");
    cursor_at(&mut b, loc(0, 0));
    let id0 = b.selections().get(0).id;
    let moved = b.set_cursor(loc(0, 2));
    assert_eq!(moved.get(0).id, id0);
    // A fresh cursor gets a fresh identity.
    let added = b.add_cursor(loc(0, 1));
    assert_eq!(added.len(), 2);
    assert_ne!(added.get(1).id, id0);
}

#[test]
fn selections_contents_reads_ranges() {
    let mut b = buffer_with("hello world");
    let g = Group::new();
    b.set_selection(&g);
    let mut group = b.set_cursor(loc(0, 0));
    b.set_selection(&group);
    group = b.set_newest_selection_end(loc(0, 5));
    b.set_selection(&group);
    let contents = b.selections_contents();
    assert_eq!(contents, vec!["hello".to_string()]);
}

#[test]
fn view_line_conversions() {
    let mut b = buffer_with("a\nb\nc\nd");
    b.set_first_view_line(Line::new(1));
    assert_eq!(b.first_view_line().value, 1);
    assert_eq!(b.view_line_count(), 3);
    assert_eq!(b.last_view_line().value, 3);
    assert_eq!(b.last_view_line_index().value, 2);
    assert_eq!(b.try_line_of_view_line(ViewLine::new(1)).unwrap().value, 2);
    assert!(b.try_line_of_view_line(ViewLine::new(9)).is_err());
    assert_eq!(b.line_of_view_line_snapped(ViewLine::new(9)).value, 3);
    assert_eq!(b.try_view_line_of_line(Line::new(0)).is_err(), true);
    assert_eq!(b.try_view_line_of_line(Line::new(2)).unwrap().value, 1);
    assert_eq!(b.view_line_of_line_snapped(Line::new(0)).value, 0);
    assert_eq!(b.first_view_line_byte_offset().value, 2);
    assert_eq!(b.byte_offset_of_view_line_index(ViewLine::new(1)).unwrap().value, 4);
    let r = b.byte_range_of_view_line_index_snapped(ViewLine::new(0));
    assert_eq!((r.start.value, r.end.value), (2, 3));
    let vr = b.view_byte_range();
    assert_eq!((vr.start.value, vr.end.value), (2, 7));
    assert_eq!(b.end_offset_of_view_line(ViewLine::new(0)).unwrap().value, 3);
    let diff = b.mod_first_view_line(LineDiff::new(-1));
    assert_eq!(diff.value, 0);
    let content = b.view_lines_content();
    assert_eq!(content, vec!["a", "b", "c", "d"]);
    let partial = b.lines_content(ViewLine::new(1), ViewLine::new(2));
    assert_eq!(partial, vec!["b", "c"]);
}

#[test]
fn view_window_content() {
    let mut b = buffer_with("a
b
c
d");
    b.set_first_view_line(Line::new(1));
    let content = b.view_lines_content();
    assert_eq!(content, vec!["b", "c", "d"]);
    let partial = b.lines_content(ViewLine::new(1), ViewLine::new(2));
    assert_eq!(partial, vec!["c", "d"]);
}

#[test]
fn range_like_and_location_like_expand() {
    let mut b = buffer_with("abc\ndef");
    cursor_at(&mut b, loc(0, 1));
    let full = RangeLike::RangeFull.expand(&mut b);
    assert_eq!((full[0].start.value, full[0].end.value), (0, 7));
    let bytes = RangeLike::BufferRangeBytes(Range::new(Byte::new(1), Byte::new(3))).expand(&mut b);
    assert_eq!((bytes[0].start.value, bytes[0].end.value), (1, 3));
    let sels = RangeLike::Selections.expand(&mut b);
    assert_eq!(sels.len(), 1);
    assert_eq!(sels[0].start.value, 1);
    let col_range = RangeLike::BufferRangeLocationColumn(Range::new(loc(1, 0), loc(1, 2)))
        .expand(&mut b);
    assert_eq!((col_range[0].start.value, col_range[0].end.value), (4, 6));
    let l1 = LocationLike::LocationColumnLine(loc(1, 2)).expand(&mut b);
    assert_eq!((l1.line.value, l1.offset.value), (1, 2));
    let l2 = LocationLike::LocationByteLine(Location::new(Line::new(1), Byte::new(2)))
        .expand(&mut b);
    assert_eq!((l2.line.value, l2.offset.value), (1, 2));
    let l3 = LocationLike::LocationColumnViewLine(Location::new(ViewLine::new(1), Column::new(1)))
        .expand(&mut b);
    assert_eq!((l3.line.value, l3.offset.value), (1, 1));
    let l4 = LocationLike::LocationByteViewLine(Location::new(ViewLine::new(0), Byte::new(3)))
        .expand(&mut b);
    assert_eq!((l4.line.value, l4.offset.value), (0, 3));
}

#[test]
fn property_resolution_and_defaults() {
    let mut b = buffer_with("abcdef");
    let resolved = b.resolve_property(Property::Size(None));
    assert_eq!(resolved, ResolvedProperty::Size(Size::new(12000)));
    b.set_property_default(Some(ResolvedProperty::Size(Size::new(15000))));
    let resolved = b.resolve_property(Property::Size(None));
    assert_eq!(resolved, ResolvedProperty::Size(Size::new(15000)));
    // The mutable default retroactively resolves unstyled bytes.
    assert_eq!(b.style().style_at(0).size, Size::new(15000));
    b.set_property(
        &vec![Range::new(Byte::new(1), Byte::new(3))],
        Some(Property::Size(Some(Size::new(9000)))),
    );
    let style = b.style();
    assert_eq!(style.style_at(0).size, Size::new(15000));
    assert_eq!(style.style_at(1).size, Size::new(9000));
    assert_eq!(style.style_at(2).size, Size::new(9000));
    assert_eq!(style.style_at(3).size, Size::new(15000));
    // Resetting a sub-range restores the default there.
    b.set_property(
        &vec![Range::new(Byte::new(2), Byte::new(3))],
        Some(Property::Size(None)),
    );
    assert_eq!(b.style().style_at(1).size, Size::new(9000));
    assert_eq!(b.style().style_at(2).size, Size::new(15000));
}

#[test]
fn mod_property_applies_relative_change() {
    let mut b = buffer_with("abcd");
    b.set_property(
        &vec![Range::new(Byte::new(0), Byte::new(2))],
        Some(Property::Size(Some(Size::new(10000)))),
    );
    b.mod_property(
        &vec![Range::new(Byte::new(1), Byte::new(3))],
        Some(PropertyDiff::Size(500)),
    );
    let style = b.style();
    assert_eq!(style.style_at(0).size, Size::new(10000));
    assert_eq!(style.style_at(1).size, Size::new(10500));
    assert_eq!(style.style_at(2).size, Size::new(12500));
    assert_eq!(style.style_at(3).size, Size::new(12000));
}

#[test]
fn drift_is_the_sum_of_length_changes() {
    // Three selections replacing 1, 0 and 2 bytes with 2, 3 and 0 bytes:
    // the total drift is (2-1) + (3-0) + (0-2).
    let mut b = buffer_with("abcdefgh");
    let mut group = b.set_cursor(loc(0, 0));
    b.set_selection(&group);
    group = b.set_newest_selection_end(loc(0, 1));
    b.set_selection(&group);
    add_cursor_at(&mut b, loc(0, 3));
    add_cursor_at(&mut b, loc(0, 5));
    group = b.set_newest_selection_end(loc(0, 7));
    b.set_selection(&group);
    let chunks = vec![Text::from_str("XY"), Text::from_str("PQR"), Text::new()];
    let m = b.paste(&chunks);
    assert_eq!(m.byte_offset.value, (2 - 1) + (3 - 0) + (0 - 2));
    assert_eq!(b.text().to_string(), "XYbcPQRdeh");
}

#[test]
fn shaping_requests_follow_style_runs() {
    let mut b = buffer_with("abcdef");
    b.set_property(
        &vec![Range::new(Byte::new(2), Byte::new(4))],
        Some(Property::Weight(Some(Weight::new(700)))),
    );
    let chunks = b.line_shaping_request(Line::new(0));
    assert_eq!(chunks.len(), 3);
    assert_eq!((chunks[0].range.start.value, chunks[0].range.end.value), (0, 2));
    assert_eq!((chunks[1].range.start.value, chunks[1].range.end.value), (2, 4));
    assert_eq!((chunks[2].range.start.value, chunks[2].range.end.value), (4, 6));
    assert_eq!(chunks[1].header.weight, Weight::new(700));
    assert_eq!(chunks[0].header.weight, Weight::new(400));
}

#[test]
fn cache_eviction_commands() {
    let mut b = buffer_with("a\nb");
    assert_eq!(b.line_last_column(Line::new(0)).value, 1);
    b.clear_shaped_lines_cache_for_line(Line::new(0));
    b.clear_shaped_lines_cache();
    // Reshaping still answers correctly.
    assert_eq!(b.line_last_column(Line::new(1)).value, 1);
}

#[test]
fn prev_and_next_column_move_across_lines() {
    let mut b = buffer_with("ab\ncd");
    let p = b.prev_column(loc(1, 0));
    assert_eq!((p.line.value, p.offset.value), (0, 2));
    let p2 = b.prev_column(loc(0, 0));
    assert_eq!((p2.line.value, p2.offset.value), (0, 0));
    let n = b.next_column(loc(0, 2));
    assert_eq!((n.line.value, n.offset.value), (1, 0));
    let n2 = b.next_column(loc(1, 2));
    assert_eq!((n2.line.value, n2.offset.value), (1, 2));
    let l = b.last_line_last_location();
    assert_eq!((l.line.value, l.offset.value), (1, 2));
}

#[test]
fn history_depth_counts_snapshots() {
    let mut b = buffer_with("a");
    cursor_at(&mut b, loc(0, 0));
    let _ = b.insert(&Text::from_str("x"));
    let _ = b.insert(&Text::from_str("y"));
    let restored = b.undo().unwrap();
    b.set_selection(&restored);
    assert_eq!(b.text().to_string(), "xa");
    let restored = b.undo().unwrap();
    b.set_selection(&restored);
    assert_eq!(b.text().to_string(), "a");
    assert!(b.undo().is_none());
}

#[test]
fn commands_drive_the_buffer() {
    let mut b = buffer_with("hello");
    let out = b.apply_command(Command::SetCursor(loc(0, 5)));
    assert!(matches!(out, CommandOutput::Selected(_)));
    let out = b.apply_command(Command::Insert(Text::from_str("!")));
    match out {
        CommandOutput::Edited(m) => assert_eq!(m.byte_offset.value, 1),
        _ => panic!("an insert reports an edit"),
    }
    assert_eq!(b.text().to_string(), "hello!");
    let out = b.apply_command(Command::DeleteLeft);
    assert!(matches!(out, CommandOutput::Edited(_)));
    assert_eq!(b.text().to_string(), "hello");
    let _ = b.apply_command(Command::Undo);
    assert_eq!(b.text().to_string(), "hello!");
    let _ = b.apply_command(Command::AddCursor(loc(0, 0)));
    assert_eq!(b.selections().len(), 2);
    let _ = b.apply_command(Command::KeepNewestCursorOnly);
    assert_eq!(b.selections().len(), 1);
    let _ = b.apply_command(Command::RemoveAllCursors);
    assert_eq!(b.selections().len(), 0);
    let _ = b.apply_command(Command::SetFirstViewLine(Line::new(0)));
}

#[test]
fn empty_line_keeps_previous_line_glyph_info() {
    let mut b = buffer_with("ab\n");
    // Line 1 is empty; its shaped form carries the glyph ending line 0.
    match b.with_shaped_line(Line::new(1)) {
        ShapedLine::Empty { prev_glyph_info: Some((prev, set)) } => {
            assert_eq!(prev.value, 2);
            assert_eq!(set.glyphs.len(), 1);
        }
        other => panic!("expected an empty line with previous-glyph info, got {:?}", other),
    }
    // An empty buffer's first line has no previous glyph.
    let mut e = BufferModel::new();
    match e.with_shaped_line(Line::new(0)) {
        ShapedLine::Empty { prev_glyph_info: None } => {}
        other => panic!("expected a bare empty line, got {:?}", other),
    }
}

#[test]
fn invalid_installed_shapes_are_refused() {
    // A cluster table that is not well formed for its line (out of order,
    // out of range) leaves the cache unchanged, so the fallback shaper
    // answers for the line.
    let mut b = buffer_with("abcd");
    let header = NonVariableFaceHeader {
        weight: Weight::new(400),
        width: Width::new(5),
        style: Style::Normal,
    };
    let bad = ShapedGlyphSet {
        units_per_em: 1000,
        ascender: 800,
        descender: -200,
        line_gap: 0,
        non_variable_variations: header,
        glyphs: vec![
            ShapedGlyph { cluster: 3, glyph_id: 1, x_advance: 10, y_advance: 0 },
            ShapedGlyph { cluster: 9, glyph_id: 2, x_advance: 10, y_advance: 0 },
        ],
    };
    b.install_shaped_line(Line::new(0), vec![(Byte::new(0), bad)]);
    // The fallback shape of "abcd" has four glyph clusters.
    assert_eq!(b.line_last_column(Line::new(0)).value, 4);
}

#[test]
fn next_identity_is_observable() {
    let mut b = buffer_with("a");
    let before = b.next_id();
    cursor_at(&mut b, loc(0, 0));
    assert_eq!(b.next_id(), before + 1);
    // Reusing the newest identity does not advance the counter.
    let group = b.set_cursor(loc(0, 1));
    b.set_selection(&group);
    assert_eq!(b.next_id(), before + 1);
}

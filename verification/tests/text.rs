//! Tests of the text value: conversions between byte offsets, lines and
//! locations, snapping, boundary queries, lines and diffing.

use text_buffer::text::BoundsError;
use text_buffer::text::Change;
use text_buffer::text::LocationError;
use text_buffer::text::Text;
use text_buffer::text::TextCell;
use text_buffer::unit::Byte;
use text_buffer::unit::Line;
use text_buffer::unit::Location;
use text_buffer::unit::Range;

fn byte(value: usize) -> Byte {
    Byte::new(value)
}

fn line(value: usize) -> Line {
    Line::new(value)
}

fn byte_range(start: usize, end: usize) -> Range<Byte> {
    Range::new(byte(start), byte(end))
}

#[test]
fn location_of_text_end() {
    let cases: &[(&str, (usize, usize))] = &[
        ("", (0, 0)),
        ("single line", (0, 11)),
        ("single line with eol\n", (1, 0)),
        ("\nMany\nLines", (2, 5)),
        ("Many\nLines\nwith eol\n", (3, 0)),
    ];
    for (text, expected) in cases {
        let text_value = Text::from_str(text);
        let result = text_value.location_of_text_end();
        assert_eq!(
            (result.line.value, result.offset.value),
            *expected,
            "Wrong text end location in case \"{}\"",
            text
        );
    }
}

#[test]
fn empty_text() {
    let t = Text::new();
    assert!(t.is_empty());
    assert_eq!(t.byte_size().value, 0);
    assert_eq!(t.last_line_index().value, 0);
    assert_eq!(t.to_string(), "");
}

#[test]
fn byte_size_and_range() {
    let t = Text::from_str("hello\nworld");
    assert_eq!(t.byte_size().value, 11);
    let r = t.byte_range();
    assert_eq!((r.start.value, r.end.value), (0, 11));
    assert!(!t.is_empty());
}

#[test]
fn sub_and_replace() {
    let t = Text::from_str("hello");
    let s = t.sub(byte_range(1, 3));
    assert_eq!(s.to_string(), "el");
    let mut t = Text::from_str("hello");
    t.replace(byte_range(0, 0), &Text::from_str("say "));
    assert_eq!(t.to_string(), "say hello");
    t.replace(byte_range(4, 9), &Text::from_str("bye"));
    assert_eq!(t.to_string(), "say bye");
}

#[test]
fn crop_byte_range_clamps() {
    let t = Text::from_str("abc");
    let r = t.crop_byte_range(byte_range(1, 99));
    assert_eq!((r.start.value, r.end.value), (1, 3));
}

#[test]
fn line_offsets() {
    let t = Text::from_str("line1\nline2\nline3");
    assert_eq!(t.last_line_index().value, 2);
    assert_eq!(t.byte_offset_of_line_index(line(0)).unwrap().value, 0);
    assert_eq!(t.byte_offset_of_line_index(line(1)).unwrap().value, 6);
    assert_eq!(t.byte_offset_of_line_index(line(2)).unwrap().value, 12);
    assert!(matches!(
        t.byte_offset_of_line_index(line(3)),
        Err(BoundsError::TooBig)
    ));
    assert_eq!(t.byte_offset_of_line_index_snapped(line(9)).value, 12);
    assert_eq!(t.end_byte_offset_of_line_index(line(0)).unwrap().value, 5);
    assert_eq!(t.end_byte_offset_of_line_index(line(2)).unwrap().value, 17);
    assert_eq!(t.line_byte_length(line(1)).value, 5);
}

#[test]
fn line_offsets_with_crlf() {
    let t = Text::from_str("ab\r\ncd");
    assert_eq!(t.last_line_index().value, 1);
    // The content end of the first line excludes the whole `\r\n`.
    assert_eq!(t.end_byte_offset_of_line_index(line(0)).unwrap().value, 2);
    assert_eq!(t.byte_offset_of_line_index(line(1)).unwrap().value, 4);
    assert_eq!(t.line_byte_length(line(0)).value, 2);
}

#[test]
fn line_index_of_byte_offset_cases() {
    let t = Text::from_str("ab\ncd");
    assert_eq!(t.line_index_of_byte_offset(byte(0)).unwrap().value, 0);
    assert_eq!(t.line_index_of_byte_offset(byte(2)).unwrap().value, 0);
    assert_eq!(t.line_index_of_byte_offset(byte(3)).unwrap().value, 1);
    assert_eq!(t.line_index_of_byte_offset(byte(5)).unwrap().value, 1);
    assert!(matches!(
        t.line_index_of_byte_offset(byte(6)),
        Err(BoundsError::TooBig)
    ));
    assert_eq!(t.line_index_of_byte_offset_snapped(byte(99)).value, 1);
}

#[test]
fn location_of_byte_offset_cases() {
    let t = Text::from_str("ab\ncd");
    let loc = t.location_of_byte_offset(byte(4)).unwrap();
    assert_eq!((loc.line.value, loc.offset.value), (1, 1));
    assert!(matches!(
        t.location_of_byte_offset(byte(6)),
        Err(BoundsError::TooBig)
    ));
    let snapped = t.location_of_byte_offset_snapped(byte(99));
    assert_eq!((snapped.line.value, snapped.offset.value), (1, 2));
    assert_eq!(t.byte_offset_of_location(Location::new(line(1), byte(1))).unwrap().value, 4);
}

#[test]
fn snap_location_clamps_and_is_idempotent() {
    let t = Text::from_str("ab\ncd");
    // Out-of-range line snaps to the text end location.
    let s1 = t.snap_location(Location::new(line(9), byte(9)));
    assert_eq!((s1.line.value, s1.offset.value), (1, 2));
    // Out-of-range offset clamps to the line's content length.
    let s2 = t.snap_location(Location::new(line(0), byte(9)));
    assert_eq!((s2.line.value, s2.offset.value), (0, 2));
    // Snapping a snapped location changes nothing.
    let s3 = t.snap_location(s1);
    assert_eq!((s3.line.value, s3.offset.value), (s1.line.value, s1.offset.value));
    let s4 = t.snap_location(s2);
    assert_eq!((s4.line.value, s4.offset.value), (s2.line.value, s2.offset.value));
}

#[test]
fn grapheme_and_codepoint_offsets() {
    // The accented letter is a single grapheme of two bytes.
    let t = Text::from_str("h\u{e9}llo");
    assert_eq!(t.byte_size().value, 6);
    assert_eq!(t.grapheme_count(), 5);
    assert_eq!(t.next_grapheme_offset(byte(1)).unwrap().value, 3);
    assert_eq!(t.prev_grapheme_offset(byte(3)).unwrap().value, 1);
    assert_eq!(t.next_codepoint_offset(byte(1)).unwrap().value, 3);
    assert_eq!(t.prev_codepoint_offset(byte(1)).unwrap().value, 0);
    assert!(t.next_grapheme_offset(byte(6)).is_none());
    assert!(t.prev_grapheme_offset(byte(0)).is_none());
}

#[test]
fn snap_offset_to_boundary_cases() {
    let t = Text::from_str("h\u{e9}llo");
    // Offset 2 is inside the two-byte code point starting at 1.
    assert_eq!(t.snap_offset_to_boundary(byte(2)).value, 1);
    assert_eq!(t.snap_offset_to_boundary(byte(1)).value, 1);
    assert_eq!(t.snap_offset_to_boundary_right(byte(2)).value, 3);
    // Snapping twice changes nothing.
    let s = t.snap_offset_to_boundary(byte(2));
    assert_eq!(t.snap_offset_to_boundary(s).value, s.value);
}

#[test]
fn lines_splitting() {
    let t = Text::from_str("a\r\nb\nc\n");
    let lines = t.lines(t.byte_range());
    assert_eq!(lines, vec!["a".to_string(), "b".to_string(), "c".to_string()]);
    let t2 = Text::from_str("no eol");
    assert_eq!(t2.lines(t2.byte_range()), vec!["no eol".to_string()]);
    let t3 = Text::new();
    assert_eq!(t3.lines(t3.byte_range()).len(), 0);
}

#[test]
fn common_prefix_and_suffix_lengths() {
    let a = Text::from_str("123xxx12345");
    let b = Text::from_str("123ZZZ12345");
    let r = a.common_prefix_and_suffix(&b);
    assert_eq!((r.prefix.value, r.suffix.value), (3, 5));
    let c = Text::from_str("friends");
    let d = Text::from_str("fiends");
    let r2 = c.common_prefix_and_suffix(&d);
    assert_eq!((r2.prefix.value, r2.suffix.value), (1, 5));
}

#[test]
fn validation() {
    let t = Text::from_str("ab");
    assert!(t.validate_line_index(line(0)).is_ok());
    assert!(matches!(t.validate_line_index(line(1)), Err(BoundsError::TooBig)));
    assert!(t.validate_byte_offset(byte(2)).is_ok());
    assert!(matches!(t.validate_byte_offset(byte(3)), Err(BoundsError::TooBig)));
}

#[test]
fn change_applied() {
    let change = Change {
        range: byte_range(1, 3),
        text: Text::from_str("XY"),
    };
    let out = change.applied("abcd").unwrap();
    assert_eq!(out, "aXYd");
    let mut s = String::from("abcd");
    change.apply(&mut s).unwrap();
    assert_eq!(s, "aXYd");
    let ins = Change::inserted(byte(2), Text::from_str("--"));
    assert_eq!(ins.applied("abcd").unwrap(), "ab--cd");
}

#[test]
fn text_cell_roundtrip() {
    let mut cell = TextCell::new();
    assert!(cell.is_empty());
    cell.set(Text::from_str("one\ntwo"));
    assert_eq!(cell.get().to_string(), "one\ntwo");
    assert_eq!(cell.byte_size().value, 7);
    assert_eq!(cell.last_line_index().value, 1);
    assert_eq!(cell.line_byte_length(line(0)).value, 3);
    let lines = cell.lines_vec(byte_range(0, 7));
    assert_eq!(lines, vec!["one".to_string(), "two".to_string()]);
    // An empty range still yields one (empty) line.
    let empty = cell.lines_vec(byte_range(4, 4));
    assert_eq!(empty, vec!["".to_string()]);
    cell.replace(byte_range(0, 3), &Text::from_str("1"));
    assert_eq!(cell.get().to_string(), "1\ntwo");
}

#[test]
fn word_boundaries() {
    let t = Text::from_str("one  two");
    // Backwards from the end: over "two", stopping after the spaces.
    assert_eq!(
        text_buffer::movement::prev_word_boundary(&t, byte(8)).value,
        5
    );
    // Backwards from inside the spaces: over them and over "one".
    assert_eq!(
        text_buffer::movement::prev_word_boundary(&t, byte(5)).value,
        0
    );
    // Forwards from the start: over "one".
    assert_eq!(
        text_buffer::movement::next_word_boundary(&t, byte(0)).value,
        3
    );
    // Forwards from the spaces: over them and over "two".
    assert_eq!(
        text_buffer::movement::next_word_boundary(&t, byte(3)).value,
        8
    );
}

#[test]
fn grapheme_steps_for_movement() {
    let t = Text::from_str("ab");
    assert_eq!(text_buffer::movement::prev_grapheme_or_same(&t, byte(0)).value, 0);
    assert_eq!(text_buffer::movement::prev_grapheme_or_same(&t, byte(1)).value, 0);
    assert_eq!(text_buffer::movement::next_grapheme_or_same(&t, byte(2)).value, 2);
    assert_eq!(text_buffer::movement::next_grapheme_or_same(&t, byte(1)).value, 2);
}

#[test]
fn byte_offset_of_location_rejects_short_lines() {
    let t = Text::from_str("ab\ncd");
    // A valid in-line offset converts exactly.
    assert_eq!(
        t.byte_offset_of_location(Location::new(line(0), byte(2))).unwrap().value,
        2
    );
    // An in-line offset beyond the line's content length is a too-short
    // line; the error carries the line's content end.
    match t.byte_offset_of_location(Location::new(line(0), byte(3))) {
        Err(LocationError::LineTooShort(end)) => assert_eq!(end.value, 2),
        other => panic!("expected a too-short line, got {:?}", other),
    }
    // A line beyond the last is out of bounds.
    assert!(matches!(
        t.byte_offset_of_location(Location::new(line(9), byte(0))),
        Err(LocationError::BoundsError(BoundsError::TooBig))
    ));
    // The snapped variant is the exact one snapped: the overrun clamps to
    // the line's content end.
    assert_eq!(t.byte_offset_of_location_snapped(Location::new(line(0), byte(3))).value, 2);
}

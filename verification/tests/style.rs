//! Tests of the style store: per-field interval maps with mutable defaults,
//! narrowing, shifting under edits, and font-face run chunking.

use text_buffer::style::FormatSpan;
use text_buffer::style::Property;
use text_buffer::style::Rgba;
use text_buffer::style::Size;
use text_buffer::style::Style;
use text_buffer::style::StyleCell;
use text_buffer::style::StyleIterator;
use text_buffer::style::Underline;
use text_buffer::style::Weight;
use text_buffer::unit::Byte;
use text_buffer::unit::Range;

fn byte_range(start: usize, end: usize) -> Range<Byte> {
    Range::new(Byte::new(start), Byte::new(end))
}

#[test]
fn property_set_and_resolve() {
    let mut p: Property<Size> = Property::new(Size::new(100));
    assert_eq!(p.resolve_at(0), Size::new(100));
    p.set(byte_range(2, 5), Size::new(200));
    assert_eq!(p.resolve_at(1), Size::new(100));
    assert_eq!(p.resolve_at(2), Size::new(200));
    assert_eq!(p.resolve_at(4), Size::new(200));
    assert_eq!(p.resolve_at(5), Size::new(100));
    // A later value covers an earlier one.
    p.set(byte_range(3, 4), Size::new(300));
    assert_eq!(p.resolve_at(3), Size::new(300));
    assert_eq!(p.resolve_at(4), Size::new(200));
}

#[test]
fn property_default_is_live() {
    let mut p: Property<Underline> = Property::new(Underline::new(false));
    p.set(byte_range(0, 1), Underline::new(true));
    p.set_default(Underline::new(true));
    // Uncovered bytes follow the changed default retroactively.
    assert_eq!(p.resolve_at(5), Underline::new(true));
    assert_eq!(p.default_value(), Underline::new(true));
}

#[test]
fn property_replace_resize_shifts_spans() {
    let mut p: Property<Weight> = Property::new(Weight::new(400));
    p.set(byte_range(4, 8), Weight::new(700));
    // Replace bytes [0, 2) with 5 default bytes: the span moves right by 3.
    p.replace_resize(byte_range(0, 2), 5, 8);
    assert_eq!(p.resolve_at(6), Weight::new(400));
    assert_eq!(p.resolve_at(7), Weight::new(700));
    assert_eq!(p.resolve_at(10), Weight::new(700));
    assert_eq!(p.resolve_at(11), Weight::new(400));
    // Replacing a covered range resets it to the default.
    let mut q: Property<Weight> = Property::new(Weight::new(400));
    q.set(byte_range(0, 4), Weight::new(700));
    q.replace_resize(byte_range(1, 3), 2, 4);
    assert_eq!(q.resolve_at(0), Weight::new(700));
    assert_eq!(q.resolve_at(1), Weight::new(400));
    assert_eq!(q.resolve_at(2), Weight::new(400));
    assert_eq!(q.resolve_at(3), Weight::new(700));
}

#[test]
fn property_sub_rebases() {
    let mut p: Property<Size> = Property::new(Size::new(100));
    p.set(byte_range(3, 6), Size::new(200));
    let s = p.sub(byte_range(2, 5));
    assert_eq!(s.resolve_at(0), Size::new(100));
    assert_eq!(s.resolve_at(1), Size::new(200));
    assert_eq!(s.resolve_at(2), Size::new(200));
    assert_eq!(s.resolve_at(3), Size::new(100));
}

#[test]
fn format_span_resolves_all_fields() {
    let mut f = FormatSpan::new();
    let v = f.style_at(0);
    assert_eq!(v.size, Size::new(12000));
    assert_eq!(v.color, Rgba::new(0, 0, 0, 255));
    assert_eq!(v.weight, Weight::new(400));
    assert_eq!(v.style, Style::Normal);
    assert_eq!(v.underline, Underline::new(false));
    f.weight.set(byte_range(1, 2), Weight::new(700));
    assert_eq!(f.style_at(1).weight, Weight::new(700));
    assert_eq!(f.face_header_at(1).weight, Weight::new(700));
}

#[test]
fn chunks_are_maximal_uniform_runs() {
    let mut f = FormatSpan::new();
    f.weight.set(byte_range(2, 4), Weight::new(700));
    let chunks = f.chunks_per_font_face(6);
    assert_eq!(chunks.len(), 3);
    assert_eq!(
        (chunks[0].range.start.value, chunks[0].range.end.value),
        (0, 2)
    );
    assert_eq!(
        (chunks[1].range.start.value, chunks[1].range.end.value),
        (2, 4)
    );
    assert_eq!(
        (chunks[2].range.start.value, chunks[2].range.end.value),
        (4, 6)
    );
    // Adjacent chunks differ in their face header.
    assert_ne!(chunks[0].header, chunks[1].header);
    assert_ne!(chunks[1].header, chunks[2].header);
    // A uniform style yields one chunk; no content yields none.
    let plain = FormatSpan::new();
    assert_eq!(plain.chunks_per_font_face(4).len(), 1);
    assert_eq!(plain.chunks_per_font_face(0).len(), 0);
}

#[test]
fn style_iterator_walks_bytes() {
    let mut f = FormatSpan::new();
    f.size.set(byte_range(1, 2), Size::new(500));
    let mut it = StyleIterator::new(f);
    assert_eq!(it.next_value().size, Size::new(12000));
    assert_eq!(it.next_value().size, Size::new(500));
    assert_eq!(it.next_value().size, Size::new(12000));
    let f2 = {
        let mut f2 = FormatSpan::new();
        f2.size.set(byte_range(3, 4), Size::new(700));
        f2
    };
    let mut it2 = StyleIterator::new(f2);
    it2.drop(Byte::new(3));
    assert_eq!(it2.next_value().size, Size::new(700));
}

#[test]
fn style_cell_roundtrip() {
    let mut cell = StyleCell::new();
    let mut f = cell.get();
    f.color.set(byte_range(0, 2), Rgba::new(1, 2, 3, 4));
    cell.set(f);
    assert_eq!(cell.get().style_at(1).color, Rgba::new(1, 2, 3, 4));
    let sub = cell.sub(byte_range(1, 2));
    assert_eq!(sub.style_at(0).color, Rgba::new(1, 2, 3, 4));
    cell.set_resize_with_default(byte_range(0, 2), 2, 2);
    assert_eq!(cell.get().style_at(1).color, Rgba::new(0, 0, 0, 255));
}

//! Text style definition and the per-field interval maps that carry it.
//!
//! Each style field (size, color, weight, width, slant, underline,
//! sdf-weight) is stored as a [`Property`]: an ordered list of disjoint byte
//! spans with explicit values, together with a mutable default that resolves
//! every byte no span covers.

use vstd::prelude::*;

use crate::unit::Byte;
use crate::unit::Range;

verus! {

// ===================
// === Field types ===
// ===================

/// Font size, in thousandths of a point.
#[derive(Clone, Copy, Debug, PartialEq, Eq, Structural)]
pub struct Size {
    pub value: u32,
}

/// An RGBA color with 8-bit channels.
#[derive(Clone, Copy, Debug, PartialEq, Eq, Structural)]
pub struct Rgba {
    pub red: u8,
    pub green: u8,
    pub blue: u8,
    pub alpha: u8,
}

/// Font weight, as the usual numeric class (400 regular, 700 bold).
#[derive(Clone, Copy, Debug, PartialEq, Eq, Structural)]
pub struct Weight {
    pub value: u16,
}

/// Font width class (1 ultra-condensed through 9 ultra-expanded, 5 normal).
#[derive(Clone, Copy, Debug, PartialEq, Eq, Structural)]
pub struct Width {
    pub value: u16,
}

/// Font slant.
#[derive(Clone, Copy, Debug, PartialEq, Eq, Structural)]
pub enum Style {
    Normal,
    Italic,
    Oblique,
}

/// Whether the text is underlined.
#[derive(Clone, Copy, Debug, PartialEq, Eq, Structural)]
pub struct Underline {
    pub value: bool,
}

/// An extra weight applied at glyph rendering, in thousandths.
#[derive(Clone, Copy, Debug, PartialEq, Eq, Structural)]
pub struct SdfWeight {
    pub value: i32,
}

impl Size {
    /// Constructor.
    pub fn new(value: u32) -> (r: Size)
        ensures
            r.value == value,
    {
        Size { value }
    }

    /// The size used where nothing else is set: twelve points.
    pub fn initial() -> (r: Size)
        ensures
            r.value == 12000,
    {
        Size { value: 12000 }
    }
}

impl Rgba {
    /// Constructor.
    pub fn new(red: u8, green: u8, blue: u8, alpha: u8) -> (r: Rgba)
        ensures
            r == (Rgba { red, green, blue, alpha }),
    {
        Rgba { red, green, blue, alpha }
    }

    /// The color used where nothing else is set: opaque black.
    pub fn initial() -> (r: Rgba)
        ensures
            r == (Rgba { red: 0, green: 0, blue: 0, alpha: 255 }),
    {
        Rgba { red: 0, green: 0, blue: 0, alpha: 255 }
    }
}

impl Weight {
    /// Constructor.
    pub fn new(value: u16) -> (r: Weight)
        ensures
            r.value == value,
    {
        Weight { value }
    }

    /// The regular weight.
    pub fn initial() -> (r: Weight)
        ensures
            r.value == 400,
    {
        Weight { value: 400 }
    }
}

impl Width {
    /// Constructor.
    pub fn new(value: u16) -> (r: Width)
        ensures
            r.value == value,
    {
        Width { value }
    }

    /// The normal width class.
    pub fn initial() -> (r: Width)
        ensures
            r.value == 5,
    {
        Width { value: 5 }
    }
}

impl Underline {
    /// Constructor.
    pub fn new(value: bool) -> (r: Underline)
        ensures
            r.value == value,
    {
        Underline { value }
    }

    /// Not underlined.
    pub fn initial() -> (r: Underline)
        ensures
            r.value == false,
    {
        Underline { value: false }
    }
}

impl SdfWeight {
    /// Constructor.
    pub fn new(value: i32) -> (r: SdfWeight)
        ensures
            r.value == value,
    {
        SdfWeight { value }
    }

    /// No extra rendering weight.
    pub fn initial() -> (r: SdfWeight)
        ensures
            r.value == 0,
    {
        SdfWeight { value: 0 }
    }
}

// ================
// === Property ===
// ================

/// One span of a property: a non-empty byte range and the value it carries.
#[derive(Clone, Copy, Debug, PartialEq, Eq, Structural)]
pub struct SpanEntry<T> {
    pub start: usize,
    pub end: usize,
    pub value: T,
}

/// The explicit value covering byte `i`, if any: the value of the first span
/// of the list that contains `i`.
pub open spec fn cover_of<T>(spans: Seq<SpanEntry<T>>, i: int) -> Option<T>
    decreases spans.len(),
{
    if spans.len() == 0 {
        None
    } else if spans[0].start <= i < spans[0].end {
        Some(spans[0].value)
    } else {
        cover_of(spans.subrange(1, spans.len() as int), i)
    }
}

/// Nothing covers a negative position.
pub proof fn lemma_cover_negative<T>(spans: Seq<SpanEntry<T>>, i: int)
    requires
        i < 0,
    ensures
        cover_of(spans, i) is None,
    decreases spans.len(),
{
    if spans.len() > 0 {
        lemma_cover_negative(spans.subrange(1, spans.len() as int), i);
    }
}

/// The cover of a concatenation: the first list wins where it covers.
pub proof fn lemma_cover_concat<T>(a: Seq<SpanEntry<T>>, b: Seq<SpanEntry<T>>, i: int)
    ensures
        cover_of(a + b, i) == (if cover_of(a, i) is Some {
            cover_of(a, i)
        } else {
            cover_of(b, i)
        }),
    decreases a.len(),
{
    if a.len() == 0 {
        assert(a + b =~= b);
    } else {
        let rest = a.subrange(1, a.len() as int);
        assert((a + b).subrange(1, (a + b).len() as int) =~= rest + b);
        lemma_cover_concat(rest, b, i);
    }
}

/// The cover of a single-entry list.
pub proof fn lemma_cover_single<T>(e: SpanEntry<T>, i: int)
    ensures
        cover_of(seq![e], i) == (if e.start <= i < e.end {
            Some(e.value)
        } else {
            None::<T>
        }),
{
    let s = seq![e];
    assert(s.len() == 1 && s[0] == e);
    assert(s.subrange(1, 1) =~= Seq::<SpanEntry<T>>::empty());
    assert(cover_of(Seq::<SpanEntry<T>>::empty(), i) is None);
}

/// The cover of a push: the pushed entry only covers what nothing earlier
/// covered.
pub proof fn lemma_cover_push<T>(spans: Seq<SpanEntry<T>>, e: SpanEntry<T>, i: int)
    ensures
        cover_of(spans.push(e), i) == (if cover_of(spans, i) is Some {
            cover_of(spans, i)
        } else if e.start <= i < e.end {
            Some(e.value)
        } else {
            None::<T>
        }),
{
    assert(spans.push(e) =~= spans + seq![e]);
    lemma_cover_concat(spans, seq![e], i);
    lemma_cover_single(e, i);
}

/// A style property: explicit spans over bytes, and a default value that
/// resolves every uncovered byte. The default is mutable at runtime, so
/// changing it retroactively affects all bytes no span covers.
pub struct Property<T> {
    spans: Vec<SpanEntry<T>>,
    default: T,
}

impl<T> View for Property<T> {
    type V = Seq<SpanEntry<T>>;

    closed spec fn view(&self) -> Seq<SpanEntry<T>> {
        self.spans@
    }
}

/// What a property resolves byte `i` to: the covering span's value, else the
/// default.
pub open spec fn resolve_spec<T>(spans: Seq<SpanEntry<T>>, default: T, i: int) -> T {
    match cover_of(spans, i) {
        Some(v) => v,
        None => default,
    }
}

impl<T: Copy> Property<T> {
    /// The property's current default value.
    pub closed spec fn spec_default(&self) -> T {
        self.default
    }

    /// What this property resolves byte `i` to.
    pub open spec fn resolve(&self, i: int) -> T {
        resolve_spec(self@, self.spec_default(), i)
    }

    /// A property with no explicit spans and the given default.
    pub fn new(default: T) -> (r: Property<T>)
        ensures
            r@ == Seq::<SpanEntry<T>>::empty(),
            r.spec_default() == default,
    {
        Property { spans: Vec::new(), default }
    }

    /// The default value of this property.
    pub fn default_value(&self) -> (r: T)
        ensures
            r == self.spec_default(),
    {
        self.default
    }

    /// Change the default value, which resolves every byte not covered by an
    /// explicit span.
    pub fn set_default(&mut self, default: T)
        ensures
            final(self)@ == old(self)@,
            final(self).spec_default() == default,
    {
        self.default = default;
    }

    /// A clone of this property.
    pub fn duplicate(&self) -> (r: Property<T>)
        ensures
            r@ == self@,
            r.spec_default() == self.spec_default(),
    {
        let mut spans: Vec<SpanEntry<T>> = Vec::new();
        let mut i: usize = 0;
        while i < self.spans.len()
            invariant
                i <= self.spans.len(),
                spans@ == self.spans@.subrange(0, i as int),
            decreases self.spans.len() - i,
        {
            spans.push(self.spans[i]);
            proof {
                assert(spans@ =~= self.spans@.subrange(0, i + 1));
            }
            i = i + 1;
        }
        proof {
            assert(spans@ =~= self.spans@);
        }
        Property { spans, default: self.default }
    }

    /// Whether every span of the property lies within the first `n` bytes.
    pub open spec fn bounded(&self, n: int) -> bool {
        forall|k: int| 0 <= k < self@.len() ==> (#[trigger] self@[k]).end <= n
    }

    /// What the property resolves the given byte to: the value of the
    /// covering span, else the default.
    pub fn resolve_at(&self, i: usize) -> (r: T)
        ensures
            r == self.resolve(i as int),
    {
        let mut k: usize = 0;
        let n = self.spans.len();
        proof {
            assert(self@.subrange(0, n as int) =~= self@);
        }
        loop
            invariant
                k <= n,
                n == self@.len(),
                cover_of(self@, i as int) == cover_of(self@.subrange(k as int, n as int), i as int),
            ensures
                cover_of(self@, i as int) == (if k < n {
                    Some(self@[k as int].value)
                } else {
                    None::<T>
                }),
            decreases n - k,
        {
            if k == n {
                break ;
            }
            let e = self.spans[k];
            let ghost tail = self@.subrange(k as int, n as int);
            proof {
                assert(tail[0] == self@[k as int]);
                assert(tail.subrange(1, tail.len() as int) =~= self@.subrange(
                    k as int + 1,
                    n as int,
                ));
            }
            if e.start <= i && i < e.end {
                break ;
            }
            k = k + 1;
        }
        if k < n {
            self.spans[k].value
        } else {
            self.default
        }
    }

    /// Cover a byte range with an explicit value. Bytes outside the range
    /// keep what they resolved to.
    pub fn set(&mut self, range: Range<Byte>, value: T)
        ensures
            final(self).spec_default() == old(self).spec_default(),
            forall|i: int|
                range.start.value <= i < range.end.value ==> #[trigger] final(self).resolve(i)
                    == value,
            forall|i: int|
                !(range.start.value <= i < range.end.value) ==> #[trigger] final(self).resolve(i)
                    == old(self).resolve(i),
            forall|n: int|
                old(self).bounded(n) && range.end.value <= n ==> final(self).bounded(n),
    {
        let e = SpanEntry { start: range.start.value, end: range.end.value, value };
        self.spans.insert(0, e);
        proof {
            assert(final(self)@ =~= seq![e] + old(self)@);
            assert forall|i: int| true implies #[trigger] final(self).resolve(i) == (if e.start <= i
                < e.end {
                value
            } else {
                old(self).resolve(i)
            }) by {
                lemma_cover_concat(seq![e], old(self)@, i);
                lemma_cover_single(e, i);
            }
        }
    }

    /// Replace the byte range with `len` bytes resolving to the default:
    /// spans inside the range are dropped, spans crossing it are trimmed, and
    /// spans after it shift by the size change, as an edit of the underlying
    /// text requires.
    pub fn replace_resize(&mut self, range: Range<Byte>, len: usize, bound: usize)
        requires
            range.start.value <= range.end.value,
            old(self).bounded(bound as int),
            range.end.value <= bound,
            bound - (range.end.value - range.start.value) + len <= usize::MAX,
        ensures
            final(self).spec_default() == old(self).spec_default(),
            final(self).bounded(bound - (range.end.value - range.start.value) + len),
            forall|i: int|
                i < range.start.value ==> #[trigger] final(self).resolve(i) == old(self).resolve(
                    i,
                ),
            forall|i: int|
                range.start.value <= i < range.start.value + len ==> #[trigger] final(self).resolve(i) == final(self).spec_default(),
            forall|i: int|
                range.start.value + len <= i ==> #[trigger] final(self).resolve(i) == old(self).resolve(i - len + (range.end.value - range.start.value)),
    {
        let rsize: usize = range.end.value - range.start.value;
        let ghost delta: int = len - rsize;
        let mut out: Vec<SpanEntry<T>> = Vec::new();
        let mut k: usize = 0;
        let n = self.spans.len();
        while k < n
            invariant
                k <= n,
                n == self@.len(),
                rsize == range.end.value - range.start.value,
                range.start.value <= range.end.value,
                self.bounded(bound as int),
                range.end.value <= bound,
                bound + delta <= usize::MAX,
                delta == len - rsize,
                forall|j: int|
                    0 <= j < out@.len() ==> (#[trigger] out@[j]).end <= bound + delta,
                forall|i: int|
                    i < range.start.value ==> #[trigger] cover_of(out@, i) == cover_of(
                        self@.subrange(0, k as int),
                        i,
                    ),
                forall|i: int|
                    range.start.value <= i < range.start.value + len ==> #[trigger] cover_of(
                        out@,
                        i,
                    ) is None,
                forall|i: int|
                    range.start.value + len <= i ==> #[trigger] cover_of(out@, i) == cover_of(
                        self@.subrange(0, k as int),
                        i - delta,
                    ),
            decreases n - k,
        {
            let e = self.spans[k];
            let ghost out0 = out@;
            let ghost pre = self@.subrange(0, k as int);
            // The part of the span before the replaced range.
            let ghost lpushed: Seq<SpanEntry<T>> = Seq::empty();
            if e.start < range.start.value {
                let lend = if e.end <= range.start.value {
                    e.end
                } else {
                    range.start.value
                };
                if e.start < lend {
                    out.push(SpanEntry { start: e.start, end: lend, value: e.value });
                }
            }
            let ghost out1 = out@;
            // The part of the span after the replaced range, shifted.
            if e.end > range.end.value {
                let rstart = if e.start >= range.end.value {
                    e.start
                } else {
                    range.end.value
                };
                if rstart < e.end {
                    proof {
                        assert(self@[k as int].end <= bound);
                        assert(rstart >= range.end.value >= rsize);
                        assert(e.end - rsize + len <= bound + delta);
                    }
                    let new_start = rstart - rsize + len;
                    let new_end = e.end - rsize + len;
                    out.push(SpanEntry { start: new_start, end: new_end, value: e.value });
                }
            }
            proof {
                let cur = self@.subrange(0, k as int + 1);
                assert(cur =~= pre.push(e));
                assert forall|i: int| true implies #[trigger] cover_of(cur, i) == (if cover_of(
                    pre,
                    i,
                ) is Some {
                    cover_of(pre, i)
                } else if e.start <= i < e.end {
                    Some(e.value)
                } else {
                    None::<T>
                }) by {
                    lemma_cover_push(pre, e, i);
                }
                assert forall|i: int| true implies #[trigger] cover_of(out@, i) == (if cover_of(
                    out0,
                    i,
                ) is Some {
                    cover_of(out0, i)
                } else if (e.start <= i < e.end && i < range.start.value) {
                    Some(e.value)
                } else if (e.end > range.end.value && range.start.value + len <= i && e.start <= i
                    - delta < e.end && i - delta >= range.end.value) {
                    Some(e.value)
                } else {
                    None::<T>
                }) by {
                    if out1 != out0 {
                        lemma_cover_push(out0, out1.last(), i);
                    }
                    if out@ != out1 {
                        lemma_cover_push(out1, out@.last(), i);
                    }
                }
            }
            k = k + 1;
        }
        proof {
            assert(self@.subrange(0, n as int) =~= self@);
        }
        self.spans = out;
    }

    /// The property narrowed to the given byte range, rebased so that the
    /// range's start becomes offset zero.
    pub fn sub(&self, range: Range<Byte>) -> (r: Property<T>)
        requires
            range.start.value <= range.end.value,
        ensures
            r.spec_default() == self.spec_default(),
            r.bounded(range.end.value - range.start.value),
            forall|i: int|
                0 <= i < range.end.value - range.start.value ==> #[trigger] r.resolve(i)
                    == self.resolve(i + range.start.value),
    {
        let mut out: Vec<SpanEntry<T>> = Vec::new();
        let mut k: usize = 0;
        let n = self.spans.len();
        let ghost size: int = range.end.value - range.start.value;
        while k < n
            invariant
                k <= n,
                n == self@.len(),
                range.start.value <= range.end.value,
                size == range.end.value - range.start.value,
                forall|j: int| 0 <= j < out@.len() ==> (#[trigger] out@[j]).end <= size,
                forall|i: int|
                    0 <= i < size ==> #[trigger] cover_of(out@, i) == cover_of(
                        self@.subrange(0, k as int),
                        i + range.start.value,
                    ),
            decreases n - k,
        {
            let e = self.spans[k];
            let ghost out0 = out@;
            let ghost pre = self@.subrange(0, k as int);
            let s = if e.start >= range.start.value {
                e.start
            } else {
                range.start.value
            };
            let en = if e.end <= range.end.value {
                e.end
            } else {
                range.end.value
            };
            if s < en {
                out.push(
                    SpanEntry {
                        start: s - range.start.value,
                        end: en - range.start.value,
                        value: e.value,
                    },
                );
            }
            proof {
                let cur = self@.subrange(0, k as int + 1);
                assert(cur =~= pre.push(e));
                assert forall|i: int| 0 <= i < size implies #[trigger] cover_of(out@, i)
                    == cover_of(cur, i + range.start.value) by {
                    lemma_cover_push(pre, e, i + range.start.value);
                    if out@ != out0 {
                        lemma_cover_push(out0, out@.last(), i);
                    }
                }
            }
            k = k + 1;
        }
        proof {
            assert(self@.subrange(0, n as int) =~= self@);
        }
        Property { spans: out, default: self.default }
    }
}


// ==================
// === FormatSpan ===
// ==================

/// The resolved style of one byte: the value of every style field at that
/// byte.
#[derive(Clone, Copy, Debug, PartialEq, Eq, Structural)]
pub struct StyleValueForByte {
    pub size: Size,
    pub color: Rgba,
    pub weight: Weight,
    pub width: Width,
    pub style: Style,
    pub underline: Underline,
    pub sdf_weight: SdfWeight,
}

/// The font-face-affecting part of a style: the fields that select a
/// non-variable font face.
#[derive(Clone, Copy, Debug, PartialEq, Eq, Structural)]
pub struct NonVariableFaceHeader {
    pub weight: Weight,
    pub width: Width,
    pub style: Style,
}

/// A maximal byte range over which the font-face-affecting style fields are
/// constant, with those fields' values.
#[derive(Clone, Copy, Debug, PartialEq, Eq, Structural)]
pub struct FontFaceChunk {
    pub range: Range<Byte>,
    pub header: NonVariableFaceHeader,
}

/// All style fields of a text: one interval map per field.
pub struct FormatSpan {
    pub size: Property<Size>,
    pub color: Property<Rgba>,
    pub weight: Property<Weight>,
    pub width: Property<Width>,
    pub style: Property<Style>,
    pub underline: Property<Underline>,
    pub sdf_weight: Property<SdfWeight>,
}

/// Whether two style stores resolve every byte alike: same spans and same
/// defaults, field by field.
pub open spec fn format_eq(a: &FormatSpan, b: &FormatSpan) -> bool {
    a.size@ == b.size@ && a.size.spec_default() == b.size.spec_default() && a.color@ == b.color@
        && a.color.spec_default() == b.color.spec_default() && a.weight@ == b.weight@
        && a.weight.spec_default() == b.weight.spec_default() && a.width@ == b.width@
        && a.width.spec_default() == b.width.spec_default() && a.style@ == b.style@
        && a.style.spec_default() == b.style.spec_default() && a.underline@ == b.underline@
        && a.underline.spec_default() == b.underline.spec_default() && a.sdf_weight@
        == b.sdf_weight@ && a.sdf_weight.spec_default() == b.sdf_weight.spec_default()
}

impl FormatSpan {
    /// The resolved style of byte `i`.
    pub open spec fn resolved(&self, i: int) -> StyleValueForByte {
        StyleValueForByte {
            size: self.size.resolve(i),
            color: self.color.resolve(i),
            weight: self.weight.resolve(i),
            width: self.width.resolve(i),
            style: self.style.resolve(i),
            underline: self.underline.resolve(i),
            sdf_weight: self.sdf_weight.resolve(i),
        }
    }

    /// The font-face-affecting part of the resolved style of byte `i`.
    pub open spec fn face_at(&self, i: int) -> NonVariableFaceHeader {
        NonVariableFaceHeader {
            weight: self.weight.resolve(i),
            width: self.width.resolve(i),
            style: self.style.resolve(i),
        }
    }

    /// Whether every span of every field lies within the first `n` bytes.
    pub open spec fn bounded(&self, n: int) -> bool {
        self.size.bounded(n) && self.color.bounded(n) && self.weight.bounded(n)
            && self.width.bounded(n) && self.style.bounded(n) && self.underline.bounded(n)
            && self.sdf_weight.bounded(n)
    }

    /// A style store with no explicit spans and the initial defaults.
    pub fn new() -> (r: FormatSpan)
        ensures
            r.size@.len() == 0 && r.color@.len() == 0 && r.weight@.len() == 0 && r.width@.len()
                == 0 && r.style@.len() == 0 && r.underline@.len() == 0 && r.sdf_weight@.len() == 0,
            r.size.spec_default() == (Size { value: 12000 }),
            r.color.spec_default() == (Rgba { red: 0, green: 0, blue: 0, alpha: 255 }),
            r.weight.spec_default() == (Weight { value: 400 }),
            r.width.spec_default() == (Width { value: 5 }),
            r.style.spec_default() == Style::Normal,
            r.underline.spec_default() == (Underline { value: false }),
            r.sdf_weight.spec_default() == (SdfWeight { value: 0 }),
            r.bounded(0),
    {
        FormatSpan {
            size: Property::new(Size::initial()),
            color: Property::new(Rgba::initial()),
            weight: Property::new(Weight::initial()),
            width: Property::new(Width::initial()),
            style: Property::new(Style::Normal),
            underline: Property::new(Underline::initial()),
            sdf_weight: Property::new(SdfWeight::initial()),
        }
    }

    /// A copy of this style store.
    pub fn duplicate(&self) -> (r: FormatSpan)
        ensures
            format_eq(&r, self),
    {
        FormatSpan {
            size: self.size.duplicate(),
            color: self.color.duplicate(),
            weight: self.weight.duplicate(),
            width: self.width.duplicate(),
            style: self.style.duplicate(),
            underline: self.underline.duplicate(),
            sdf_weight: self.sdf_weight.duplicate(),
        }
    }

    /// The resolved style of the given byte.
    pub fn style_at(&self, i: usize) -> (r: StyleValueForByte)
        ensures
            r == self.resolved(i as int),
    {
        StyleValueForByte {
            size: self.size.resolve_at(i),
            color: self.color.resolve_at(i),
            weight: self.weight.resolve_at(i),
            width: self.width.resolve_at(i),
            style: self.style.resolve_at(i),
            underline: self.underline.resolve_at(i),
            sdf_weight: self.sdf_weight.resolve_at(i),
        }
    }

    /// The font-face-affecting part of the resolved style of the given byte.
    pub fn face_header_at(&self, i: usize) -> (r: NonVariableFaceHeader)
        ensures
            r == self.face_at(i as int),
    {
        NonVariableFaceHeader {
            weight: self.weight.resolve_at(i),
            width: self.width.resolve_at(i),
            style: self.style.resolve_at(i),
        }
    }

    /// Every field narrowed to the given byte range and rebased to it.
    pub fn sub(&self, range: Range<Byte>) -> (r: FormatSpan)
        requires
            range.start.value <= range.end.value,
        ensures
            r.bounded(range.end.value - range.start.value),
            forall|i: int|
                0 <= i < range.end.value - range.start.value ==> #[trigger] r.resolved(i)
                    == self.resolved(i + range.start.value),
            forall|i: int|
                0 <= i < range.end.value - range.start.value ==> #[trigger] r.face_at(i)
                    == self.face_at(i + range.start.value),
    {
        FormatSpan {
            size: self.size.sub(range),
            color: self.color.sub(range),
            weight: self.weight.sub(range),
            width: self.width.sub(range),
            style: self.style.sub(range),
            underline: self.underline.sub(range),
            sdf_weight: self.sdf_weight.sub(range),
        }
    }

    /// Replace the byte range with `len` bytes resolving to the defaults, in
    /// every field, shifting the spans after it by the size change.
    pub fn set_resize_with_default(&mut self, range: Range<Byte>, len: usize, bound: usize)
        requires
            range.start.value <= range.end.value,
            old(self).bounded(bound as int),
            range.end.value <= bound,
            bound - (range.end.value - range.start.value) + len <= usize::MAX,
        ensures
            final(self).bounded(bound - (range.end.value - range.start.value) + len),
            forall|i: int|
                0 <= i < range.start.value ==> #[trigger] final(self).resolved(i) == old(self).resolved(i),
            forall|i: int|
                range.start.value + len <= i ==> #[trigger] final(self).resolved(i) == old(self).resolved(i - len + (range.end.value - range.start.value)),
            final(self).size.spec_default() == old(self).size.spec_default(),
            final(self).color.spec_default() == old(self).color.spec_default(),
            final(self).weight.spec_default() == old(self).weight.spec_default(),
            final(self).width.spec_default() == old(self).width.spec_default(),
            final(self).style.spec_default() == old(self).style.spec_default(),
            final(self).underline.spec_default() == old(self).underline.spec_default(),
            final(self).sdf_weight.spec_default() == old(self).sdf_weight.spec_default(),
            forall|i: int|
                range.start.value <= i < range.start.value + len ==> #[trigger] final(self).resolved(i) == (StyleValueForByte {
                    size: old(self).size.spec_default(),
                    color: old(self).color.spec_default(),
                    weight: old(self).weight.spec_default(),
                    width: old(self).width.spec_default(),
                    style: old(self).style.spec_default(),
                    underline: old(self).underline.spec_default(),
                    sdf_weight: old(self).sdf_weight.spec_default(),
                }),
    {
        self.size.replace_resize(range, len, bound);
        self.color.replace_resize(range, len, bound);
        self.weight.replace_resize(range, len, bound);
        self.width.replace_resize(range, len, bound);
        self.style.replace_resize(range, len, bound);
        self.underline.replace_resize(range, len, bound);
        self.sdf_weight.replace_resize(range, len, bound);
    }

    /// The maximal runs of constant font-face-affecting style covering the
    /// first `len` bytes, in increasing byte order.
    #[verifier::rlimit(100)]
    pub fn chunks_per_font_face(&self, len: usize) -> (r: Vec<FontFaceChunk>)
        ensures
            len == 0 ==> r@.len() == 0,
            len > 0 ==> r@.len() > 0 && r@[0].range.start.value == 0 && r@[r@.len()
                - 1].range.end.value == len,
            forall|k: int|
                0 <= k < r@.len() ==> (#[trigger] r@[k]).range.start.value < r@[k].range.end.value
                    && r@[k].range.end.value <= len,
            forall|k: int|
                0 < k < r@.len() ==> (#[trigger] r@[k]).range.start.value == r@[k
                    - 1].range.end.value,
            forall|k: int, i: int|
                0 <= k < r@.len() && r@[k].range.start.value <= i < r@[k].range.end.value
                    ==> #[trigger] self.face_at(i) == (#[trigger] r@[k]).header,
            forall|k: int|
                0 < k < r@.len() ==> (#[trigger] r@[k]).header != r@[k - 1].header,
    {
        let mut out: Vec<FontFaceChunk> = Vec::new();
        if len == 0 {
            return out;
        }
        let mut cur_start: usize = 0;
        let mut cur_header = self.face_header_at(0);
        let mut i: usize = 1;
        while i < len
            invariant
                1 <= i <= len,
                cur_start < i,
                cur_header == self.face_at(cur_start as int),
                forall|j: int|
                    cur_start <= j < i ==> #[trigger] self.face_at(j) == cur_header,
                out@.len() == 0 ==> cur_start == 0,
                out@.len() > 0 ==> out@[0].range.start.value == 0 && out@[out@.len()
                    - 1].range.end.value == cur_start && out@[out@.len() - 1].header != cur_header,
                forall|k: int|
                    0 <= k < out@.len() ==> (#[trigger] out@[k]).range.start.value
                        < out@[k].range.end.value && out@[k].range.end.value <= len,
                forall|k: int|
                    0 < k < out@.len() ==> (#[trigger] out@[k]).range.start.value == out@[k
                        - 1].range.end.value,
                forall|k: int, j: int|
                    0 <= k < out@.len() && out@[k].range.start.value <= j
                        < out@[k].range.end.value ==> #[trigger] self.face_at(j) == (
                    #[trigger] out@[k]).header,
                forall|k: int|
                    0 < k < out@.len() ==> (#[trigger] out@[k]).header != out@[k - 1].header,
            decreases len - i,
        {
            let h = self.face_header_at(i);
            if !(h.weight.value == cur_header.weight.value && h.width.value
                == cur_header.width.value && h.style == cur_header.style) {
                out.push(
                    FontFaceChunk {
                        range: Range {
                            start: Byte { value: cur_start },
                            end: Byte { value: i },
                        },
                        header: cur_header,
                    },
                );
                cur_start = i;
                cur_header = h;
            }
            i = i + 1;
        }
        out.push(
            FontFaceChunk {
                range: Range { start: Byte { value: cur_start }, end: Byte { value: len } },
                header: cur_header,
            },
        );
        out
    }
}

// =====================
// === StyleIterator ===
// =====================

/// A byte-by-byte walk over the resolved style values of a style store.
pub struct StyleIterator {
    style: FormatSpan,
    offset: usize,
}

impl StyleIterator {
    /// The byte the walk stands at.
    pub closed spec fn spec_offset(&self) -> int {
        self.offset as int
    }

    /// The style store the walk reads.
    pub closed spec fn spec_style(&self) -> &FormatSpan {
        &self.style
    }

    /// A walk over the given style store, starting at the first byte.
    pub fn new(style: FormatSpan) -> (r: StyleIterator)
        ensures
            r.spec_offset() == 0,
            format_eq(r.spec_style(), &style),
    {
        StyleIterator { style, offset: 0 }
    }

    /// The resolved style of the byte the walk stands at; the walk advances
    /// by one byte.
    pub fn next_value(&mut self) -> (r: StyleValueForByte)
        requires
            old(self).spec_offset() < usize::MAX,
        ensures
            r == old(self).spec_style().resolved(old(self).spec_offset()),
            final(self).spec_offset() == old(self).spec_offset() + 1,
            final(self).spec_style() == old(self).spec_style(),
    {
        let r = self.style.style_at(self.offset);
        self.offset = self.offset + 1;
        r
    }

    /// Skip the given number of bytes.
    pub fn drop(&mut self, bytes: Byte)
        requires
            old(self).spec_offset() + bytes.value <= usize::MAX,
        ensures
            final(self).spec_offset() == old(self).spec_offset() + bytes.value,
            final(self).spec_style() == old(self).spec_style(),
    {
        self.offset = self.offset + bytes.value;
    }
}

// =================
// === StyleCell ===
// =================

/// A mutable holder of a [`FormatSpan`]. The mutating operations take the
/// cell exclusively.
pub struct StyleCell {
    cell: FormatSpan,
}

impl StyleCell {
    /// The style store the cell holds.
    pub closed spec fn spec_style(&self) -> &FormatSpan {
        &self.cell
    }

    /// A cell holding a style store with no explicit spans and the initial
    /// defaults.
    pub fn new() -> (r: StyleCell)
        ensures
            r.spec_style().bounded(0),
            r.spec_style().size@.len() == 0 && r.spec_style().color@.len() == 0 && r.spec_style().weight@.len() == 0
                && r.spec_style().width@.len() == 0 && r.spec_style().style@.len() == 0
                && r.spec_style().underline@.len() == 0 && r.spec_style().sdf_weight@.len() == 0,
    {
        StyleCell { cell: FormatSpan::new() }
    }

    /// The current style value.
    pub fn get(&self) -> (r: FormatSpan)
        ensures
            format_eq(&r, self.spec_style()),
    {
        self.cell.duplicate()
    }

    /// Set the style value.
    pub fn set(&mut self, style: FormatSpan)
        ensures
            format_eq(final(self).spec_style(), &style),
    {
        self.cell = style;
    }

    /// The style narrowed to the given byte range.
    pub fn sub(&self, range: Range<Byte>) -> (r: FormatSpan)
        requires
            range.start.value <= range.end.value,
        ensures
            r.bounded(range.end.value - range.start.value),
            forall|i: int|
                0 <= i < range.end.value - range.start.value ==> #[trigger] r.resolved(i)
                    == self.spec_style().resolved(i + range.start.value),
    {
        self.cell.sub(range)
    }

    /// Replace the byte range with `len` bytes resolving to the defaults; see
    /// [`FormatSpan::set_resize_with_default`].
    pub fn set_resize_with_default(&mut self, range: Range<Byte>, len: usize, bound: usize)
        requires
            range.start.value <= range.end.value,
            old(self).spec_style().bounded(bound as int),
            range.end.value <= bound,
            bound - (range.end.value - range.start.value) + len <= usize::MAX,
        ensures
            final(self).spec_style().bounded(
                bound - (range.end.value - range.start.value) + len,
            ),
            forall|i: int|
                0 <= i < range.start.value ==> #[trigger] final(self).spec_style().resolved(i)
                    == old(self).spec_style().resolved(i),
            forall|i: int|
                range.start.value + len <= i ==> #[trigger] final(self).spec_style().resolved(i)
                    == old(self).spec_style().resolved(
                    i - len + (range.end.value - range.start.value),
                ),
            forall|i: int|
                range.start.value <= i < range.start.value + len ==> #[trigger] final(self).spec_style().resolved(i) == (StyleValueForByte {
                    size: old(self).spec_style().size.spec_default(),
                    color: old(self).spec_style().color.spec_default(),
                    weight: old(self).spec_style().weight.spec_default(),
                    width: old(self).spec_style().width.spec_default(),
                    style: old(self).spec_style().style.spec_default(),
                    underline: old(self).spec_style().underline.spec_default(),
                    sdf_weight: old(self).spec_style().sdf_weight.spec_default(),
                }),
            final(self).spec_style().size.spec_default() == old(self).spec_style().size.spec_default(),
            final(self).spec_style().color.spec_default() == old(self).spec_style().color.spec_default(),
            final(self).spec_style().weight.spec_default() == old(self).spec_style().weight.spec_default(),
            final(self).spec_style().width.spec_default() == old(self).spec_style().width.spec_default(),
            final(self).spec_style().style.spec_default() == old(self).spec_style().style.spec_default(),
            final(self).spec_style().underline.spec_default() == old(self).spec_style().underline.spec_default(),
            final(self).spec_style().sdf_weight.spec_default() == old(self).spec_style().sdf_weight.spec_default(),
    {
        self.cell.set_resize_with_default(range, len, bound)
    }
}

} // verus!

//! Shaped lines: the per-line glyph tables that column conversions read, and
//! the cache that memoizes them.
//!
//! A shaped line is either a non-empty ordered sequence of glyph runs, or an
//! empty-line marker carrying the glyph that ended the previous line (used to
//! compute an empty line's height). The glyph `cluster` offsets are byte
//! offsets within the line, cumulative across runs.

use vstd::prelude::*;

use crate::style::NonVariableFaceHeader;
use crate::unit::Byte;
use crate::unit::Column;

verus! {

/// One shaped glyph: the in-line byte offset of the cluster it starts, the
/// glyph's index in its font, and its advance.
#[derive(Clone, Copy, Debug, PartialEq, Eq, Structural)]
pub struct ShapedGlyph {
    pub cluster: usize,
    pub glyph_id: u16,
    pub x_advance: i32,
    pub y_advance: i32,
}

impl ShapedGlyph {
    /// The byte offset within the line at which this glyph's cluster starts.
    pub fn start_byte(&self) -> (r: Byte)
        ensures
            r.value == self.cluster,
    {
        Byte { value: self.cluster }
    }

    /// The glyph id: the index of the glyph in the font.
    pub fn id(&self) -> (r: u16)
        ensures
            r == self.glyph_id,
    {
        self.glyph_id
    }
}

/// A run of glyphs shaped with one font face, with that face's metrics.
#[derive(Clone, Debug)]
pub struct ShapedGlyphSet {
    pub units_per_em: u16,
    pub ascender: i16,
    pub descender: i16,
    pub line_gap: i16,
    pub non_variable_variations: NonVariableFaceHeader,
    pub glyphs: Vec<ShapedGlyph>,
}

/// A shaped line: a non-empty ordered sequence of glyph runs, or an
/// empty-line marker carrying the in-line byte offset and run of the glyph
/// that ended the previous line, if any.
#[derive(Clone, Debug)]
pub enum ShapedLine {
    NonEmpty { glyph_sets: Vec<ShapedGlyphSet> },
    Empty { prev_glyph_info: Option<(Byte, ShapedGlyphSet)> },
}

/// The cluster starts of one glyph run, in glyph order.
pub open spec fn set_clusters(s: ShapedGlyphSet) -> Seq<int> {
    s.glyphs@.map(|k: int, g: ShapedGlyph| g.cluster as int)
}

/// The cluster starts of a sequence of glyph runs, concatenated.
pub open spec fn sets_clusters(sets: Seq<ShapedGlyphSet>) -> Seq<int>
    decreases sets.len(),
{
    if sets.len() == 0 {
        Seq::empty()
    } else {
        set_clusters(sets[0]) + sets_clusters(sets.subrange(1, sets.len() as int))
    }
}

/// The cluster starts of a shaped line: the byte offset, within the line, of
/// each glyph cluster, in glyph order.
pub open spec fn line_clusters(l: ShapedLine) -> Seq<int> {
    match l {
        ShapedLine::NonEmpty { glyph_sets } => sets_clusters(glyph_sets@),
        ShapedLine::Empty { .. } => Seq::empty(),
    }
}

/// Appending one run at the end appends its clusters at the end.
pub proof fn lemma_sets_clusters_snoc(sets: Seq<ShapedGlyphSet>, s: ShapedGlyphSet)
    ensures
        sets_clusters(sets.push(s)) == sets_clusters(sets) + set_clusters(s),
    decreases sets.len(),
{
    if sets.len() == 0 {
        let p = sets.push(s);
        assert(p[0] == s);
        assert(p.subrange(1, 1) =~= Seq::<ShapedGlyphSet>::empty());
        assert(sets_clusters(p.subrange(1, 1)) =~= Seq::<int>::empty());
        assert(sets_clusters(p) == set_clusters(s) + sets_clusters(p.subrange(1, 1)));
        assert(set_clusters(s) + Seq::<int>::empty() =~= set_clusters(s));
        assert(sets_clusters(sets) + set_clusters(s) =~= set_clusters(s));
    } else {
        let p = sets.push(s);
        assert(p[0] == sets[0]);
        assert(p.subrange(1, p.len() as int) =~= sets.subrange(1, sets.len() as int).push(s));
        lemma_sets_clusters_snoc(sets.subrange(1, sets.len() as int), s);
        assert(sets_clusters(p) == set_clusters(sets[0]) + (sets_clusters(
            sets.subrange(1, sets.len() as int),
        ) + set_clusters(s)));
        assert(set_clusters(sets[0]) + (sets_clusters(sets.subrange(1, sets.len() as int))
            + set_clusters(s)) =~= (set_clusters(sets[0]) + sets_clusters(
            sets.subrange(1, sets.len() as int),
        )) + set_clusters(s));
    }
}

/// A well-formed shaped line for a line of `line_len` content bytes: its
/// cluster starts begin at zero, increase strictly, and stay within the line;
/// the line is shaped non-empty exactly when it has content.
pub open spec fn wf_shaped(l: ShapedLine, line_len: int) -> bool {
    let cs = line_clusters(l);
    &&& (l is NonEmpty <==> line_len > 0)
    &&& (l is NonEmpty ==> cs.len() > 0 && cs[0] == 0)
    &&& (forall|k: int| 0 <= k < cs.len() ==> 0 <= #[trigger] cs[k] < line_len)
    &&& (forall|k: int| 0 < k < cs.len() ==> cs[k - 1] < #[trigger] cs[k])
}

impl ShapedLine {
    /// The number of glyphs in the line.
    pub fn glyph_count(&self) -> (r: usize)
        ensures
            r == line_clusters(*self).len(),
    {
        self.clusters().len()
    }

    /// All cluster starts of the line, flattened across its runs, as in-line
    /// byte offsets in glyph order.
    pub fn clusters(&self) -> (r: Vec<usize>)
        ensures
            r@.map(|k: int, c: usize| c as int) == line_clusters(*self),
    {
        let mut out: Vec<usize> = Vec::new();
        match self {
            ShapedLine::NonEmpty { glyph_sets } => {
                let n = glyph_sets.len();
                let mut k: usize = 0;
                while k < n
                    invariant
                        k <= n,
                        n == glyph_sets@.len(),
                        out@.map(|q: int, c: usize| c as int) == sets_clusters(
                            glyph_sets@.subrange(0, k as int),
                        ),
                    decreases n - k,
                {
                    let set = &glyph_sets[k];
                    let m = set.glyphs.len();
                    let mut j: usize = 0;
                    while j < m
                        invariant
                            j <= m,
                            m == set.glyphs@.len(),
                            set == glyph_sets@[k as int],
                            k < n,
                            n == glyph_sets@.len(),
                            out@.map(|q: int, c: usize| c as int) == sets_clusters(
                                glyph_sets@.subrange(0, k as int),
                            ) + set_clusters(*set).subrange(0, j as int),
                        decreases m - j,
                    {
                        out.push(set.glyphs[j].cluster);
                        proof {
                            let prev = sets_clusters(glyph_sets@.subrange(0, k as int))
                                + set_clusters(*set).subrange(0, j as int);
                            assert(out@.map(|q: int, c: usize| c as int) =~= prev.push(
                                set.glyphs@[j as int].cluster as int,
                            ));
                            assert(set_clusters(*set).subrange(0, j as int + 1) =~= set_clusters(
                                *set,
                            ).subrange(0, j as int).push(set.glyphs@[j as int].cluster as int));
                            assert(prev.push(set.glyphs@[j as int].cluster as int) =~= sets_clusters(
                                glyph_sets@.subrange(0, k as int),
                            ) + set_clusters(*set).subrange(0, j as int + 1));
                        }
                        j = j + 1;
                    }
                    proof {
                        assert(set_clusters(*set).subrange(0, m as int) =~= set_clusters(*set));
                        lemma_sets_clusters_snoc(glyph_sets@.subrange(0, k as int), *set);
                        assert(glyph_sets@.subrange(0, k as int + 1) =~= glyph_sets@.subrange(
                            0,
                            k as int,
                        ).push(glyph_sets@[k as int]));
                    }
                    k = k + 1;
                }
                proof {
                    assert(glyph_sets@.subrange(0, n as int) =~= glyph_sets@);
                }
            },
            ShapedLine::Empty { .. } => {
                proof {
                    assert(out@.map(|q: int, c: usize| c as int) =~= Seq::<int>::empty());
                }
            },
        }
        out
    }
}

// ===================
// === Conversions ===
// ===================

/// The column of an in-line byte offset within a cluster table: the index of
/// the first cluster starting at or after the offset, or the cluster count if
/// the offset lies beyond every cluster.
pub open spec fn col_of(cs: Seq<int>, off: int) -> int
    decreases cs.len(),
{
    if cs.len() == 0 {
        0
    } else if cs[0] >= off {
        0
    } else {
        1 + col_of(cs.subrange(1, cs.len() as int), off)
    }
}

/// The column of an in-line byte offset: the index of the glyph cluster that
/// starts at (or, for an offset inside a cluster, just after) the offset; an
/// offset beyond the last cluster gives the column after the last glyph.
pub fn column_of_in_line_byte(line: &ShapedLine, offset: Byte) -> (r: Column)
    ensures
        r.value == col_of(line_clusters(*line), offset.value as int),
{
    let cs = line.clusters();
    let n = cs.len();
    let mut k: usize = 0;
    let ghost spec_cs = line_clusters(*line);
    proof {
        assert(spec_cs.subrange(0, n as int) =~= spec_cs);
    }
    loop
        invariant
            k <= n,
            n == spec_cs.len(),
            spec_cs == cs@.map(|q: int, c: usize| c as int),
            col_of(spec_cs, offset.value as int) == k + col_of(
                spec_cs.subrange(k as int, n as int),
                offset.value as int,
            ),
        ensures
            k == col_of(spec_cs, offset.value as int),
        decreases n - k,
    {
        if k == n {
            proof {
                assert(spec_cs.subrange(k as int, n as int) =~= Seq::<int>::empty());
            }
            break ;
        }
        let ghost tail = spec_cs.subrange(k as int, n as int);
        proof {
            assert(tail[0] == spec_cs[k as int]);
            assert(tail.subrange(1, tail.len() as int) =~= spec_cs.subrange(
                k as int + 1,
                n as int,
            ));
        }
        if cs[k] >= offset.value {
            break ;
        }
        k = k + 1;
    }
    Column { value: k }
}

/// The in-line byte offset of a column: the start of the column-th glyph
/// cluster, or the line's content length for a column beyond the last glyph.
pub fn in_line_byte_of_column(line: &ShapedLine, column: Column, line_len: Byte) -> (r: Byte)
    ensures
        column.value < line_clusters(*line).len() ==> r.value == line_clusters(
            *line,
        )[column.value as int],
        column.value >= line_clusters(*line).len() ==> r.value == line_len.value,
{
    let cs = line.clusters();
    if column.value < cs.len() {
        proof {
            assert(line_clusters(*line)[column.value as int] == cs@.map(
                |q: int, c: usize| c as int,
            )[column.value as int]);
        }
        Byte { value: cs[column.value] }
    } else {
        line_len
    }
}

/// In a strictly increasing cluster table, the column of a cluster start is
/// its index.
pub proof fn lemma_col_of_cluster_start(cs: Seq<int>, k: int)
    requires
        0 <= k < cs.len(),
        forall|i: int| 0 < i < cs.len() ==> cs[i - 1] < #[trigger] cs[i],
    ensures
        col_of(cs, cs[k]) == k,
    decreases k,
{
    let tail = cs.subrange(1, cs.len() as int);
    if k == 0 {
    } else {
        assert(cs[0] < cs[k]) by {
            lemma_clusters_increasing(cs, 0, k);
        }
        assert forall|i: int| 0 < i < tail.len() implies tail[i - 1] < #[trigger] tail[i] by {
            assert(tail[i - 1] == cs[i]);
            assert(tail[i] == cs[i + 1]);
        }
        lemma_col_of_cluster_start(tail, k - 1);
        assert(tail[k - 1] == cs[k]);
    }
}

/// Strict growth between any two positions of a strictly increasing table.
pub proof fn lemma_clusters_increasing(cs: Seq<int>, i: int, j: int)
    requires
        0 <= i < j < cs.len(),
        forall|k: int| 0 < k < cs.len() ==> cs[k - 1] < #[trigger] cs[k],
    ensures
        cs[i] < cs[j],
    decreases j - i,
{
    if i + 1 < j {
        lemma_clusters_increasing(cs, i + 1, j);
    }
}

/// Round-trip of the column conversions.
///
/// Law: for every well-formed shaped line, converting an in-line byte offset
/// that starts a glyph cluster to a column and back yields the original
/// offset.
pub proof fn lemma_column_byte_round_trip(l: ShapedLine, line_len: int, off: int)
    requires
        wf_shaped(l, line_len),
        line_clusters(l).contains(off),
    ensures
        ({
            let col = col_of(line_clusters(l), off);
            0 <= col < line_clusters(l).len() && line_clusters(l)[col] == off
        }),
{
    let cs = line_clusters(l);
    let k = choose|k: int| 0 <= k < cs.len() && cs[k] == off;
    lemma_col_of_cluster_start(cs, k);
}

// ======================
// === LineShapeCache ===
// ======================

/// One cache entry: a line index and its shaped line.
pub struct CacheEntry {
    pub line: usize,
    pub shaped: ShapedLine,
}

/// The map a list of cache entries holds.
pub open spec fn cache_map(entries: Seq<CacheEntry>) -> Map<int, ShapedLine>
    decreases entries.len(),
{
    if entries.len() == 0 {
        Map::empty()
    } else {
        cache_map(entries.drop_last()).insert(
            entries.last().line as int,
            entries.last().shaped,
        )
    }
}

/// A memo of shaped lines, keyed by line index. Entries are invalidated and
/// re-indexed, never left stale, when an edit rewrites or shifts lines.
pub struct LineShapeCache {
    entries: Vec<CacheEntry>,
}

impl View for LineShapeCache {
    type V = Map<int, ShapedLine>;

    closed spec fn view(&self) -> Map<int, ShapedLine> {
        cache_map(self.entries@)
    }
}

/// Whether the entries carry pairwise distinct line indices.
pub open spec fn cache_keys_unique(entries: Seq<CacheEntry>) -> bool {
    forall|i: int, j: int|
        0 <= i < j < entries.len() ==> (#[trigger] entries[i]).line != (#[trigger] entries[j]).line
}

impl LineShapeCache {
    /// The entries' keys are pairwise distinct.
    pub closed spec fn wf(&self) -> bool {
        cache_keys_unique(self.entries@)
    }

    /// An empty cache.
    pub fn new() -> (r: LineShapeCache)
        ensures
            r@ == Map::<int, ShapedLine>::empty(),
            r.wf(),
    {
        LineShapeCache { entries: Vec::new() }
    }

    /// Drop every entry.
    pub fn clear(&mut self)
        ensures
            final(self)@ == Map::<int, ShapedLine>::empty(),
            final(self).wf(),
    {
        self.entries = Vec::new();
    }
}


/// What a list of entries holds at each index, as the map it denotes: every
/// entry's key is bound to its shaped line, when the keys are distinct.
proof fn lemma_cache_map_index(entries: Seq<CacheEntry>, i: int)
    requires
        cache_keys_unique(entries),
        0 <= i < entries.len(),
    ensures
        cache_map(entries).contains_key(entries[i].line as int),
        cache_map(entries)[entries[i].line as int] == entries[i].shaped,
    decreases entries.len(),
{
    if i == entries.len() - 1 {
    } else {
        assert(entries.drop_last()[i] == entries[i]);
        lemma_cache_map_index(entries.drop_last(), i);
        assert(entries[entries.len() - 1].line != entries[i].line);
    }
}

/// The domain of the map a list of entries denotes: exactly the entries'
/// keys.
proof fn lemma_cache_map_dom(entries: Seq<CacheEntry>, k: int)
    ensures
        cache_map(entries).contains_key(k) <==> exists|i: int|
            0 <= i < entries.len() && (#[trigger] entries[i]).line == k,
    decreases entries.len(),
{
    if entries.len() > 0 {
        lemma_cache_map_dom(entries.drop_last(), k);
        if entries.last().line == k {
            assert(entries[entries.len() - 1].line == k);
        } else {
            assert forall|i: int|
                0 <= i < entries.drop_last().len() && (#[trigger] entries.drop_last()[i]).line
                    == k implies exists|j: int|
                0 <= j < entries.len() && (#[trigger] entries[j]).line == k by {
                assert(entries[i].line == k);
            }
            assert forall|i: int| 0 <= i < entries.len() && (#[trigger] entries[i]).line
                == k implies exists|j: int|
                0 <= j < entries.drop_last().len() && (#[trigger] entries.drop_last()[j]).line
                    == k by {
                assert(i < entries.len() - 1);
                assert(entries.drop_last()[i].line == k);
            }
        }
    }
}

/// Replacing the entry at one index rebinds only that entry's key.
proof fn lemma_cache_map_update(entries: Seq<CacheEntry>, i: int, e: CacheEntry)
    requires
        cache_keys_unique(entries),
        0 <= i < entries.len(),
        e.line == entries[i].line,
    ensures
        cache_map(entries.update(i, e)) =~= cache_map(entries).insert(e.line as int, e.shaped),
    decreases entries.len(),
{
    let up = entries.update(i, e);
    if i == entries.len() - 1 {
        assert(up.drop_last() =~= entries.drop_last());
        assert(up.last() == e);
    } else {
        assert(up.last() == entries.last());
        assert(up.drop_last() =~= entries.drop_last().update(i, e));
        assert(entries.drop_last()[i] == entries[i]);
        lemma_cache_map_update(entries.drop_last(), i, e);
        assert(entries.last().line != e.line);
    }
}

/// Removing the entry at one index unbinds only that entry's key.
proof fn lemma_cache_map_remove(entries: Seq<CacheEntry>, i: int)
    requires
        cache_keys_unique(entries),
        0 <= i < entries.len(),
    ensures
        cache_map(entries.remove(i)) =~= cache_map(entries).remove(entries[i].line as int),
    decreases entries.len(),
{
    let rm = entries.remove(i);
    if i == entries.len() - 1 {
        assert(rm =~= entries.drop_last());
        lemma_cache_map_dom(entries.drop_last(), entries[i].line as int);
        assert(!cache_map(entries.drop_last()).contains_key(entries[i].line as int));
    } else {
        assert(rm.last() == entries.last());
        assert(rm.drop_last() =~= entries.drop_last().remove(i));
        assert(entries.drop_last()[i] == entries[i]);
        lemma_cache_map_remove(entries.drop_last(), i);
        assert(entries.last().line != entries[i].line);
    }
}

impl LineShapeCache {
    /// The cached shaped line for the given line index, if any.
    pub fn get(&self, line: usize) -> (r: Option<&ShapedLine>)
        requires
            self.wf(),
        ensures
            match r {
                Some(l) => self@.contains_key(line as int) && *l == self@[line as int],
                None => !self@.contains_key(line as int),
            },
    {
        let n = self.entries.len();
        let mut i: usize = 0;
        while i < n
            invariant
                i <= n,
                n == self.entries@.len(),
                self.wf(),
                forall|j: int| 0 <= j < i ==> (#[trigger] self.entries@[j]).line != line,
            decreases n - i,
        {
            if self.entries[i].line == line {
                proof {
                    lemma_cache_map_index(self.entries@, i as int);
                }
                return Some(&self.entries[i].shaped);
            }
            i = i + 1;
        }
        proof {
            lemma_cache_map_dom(self.entries@, line as int);
        }
        None
    }

    /// Cache a shaped line under the given line index, replacing what was
    /// there.
    pub fn insert(&mut self, line: usize, shaped: ShapedLine)
        requires
            old(self).wf(),
        ensures
            final(self).wf(),
            final(self)@ =~= old(self)@.insert(line as int, shaped),
    {
        let n = self.entries.len();
        let mut i: usize = 0;
        while i < n
            invariant
                i <= n,
                n == self.entries@.len(),
                self.wf(),
                self@ == old(self)@,
                self.entries@ == old(self).entries@,
                forall|j: int| 0 <= j < i ==> (#[trigger] self.entries@[j]).line != line,
            decreases n - i,
        {
            if self.entries[i].line == line {
                proof {
                    lemma_cache_map_update(self.entries@, i as int, CacheEntry { line, shaped });
                }
                self.entries.set(i, CacheEntry { line, shaped });
                return ;
            }
            i = i + 1;
        }
        proof {
            lemma_cache_map_dom(self.entries@, line as int);
            assert(self.entries@.push(CacheEntry { line, shaped }).drop_last() =~= self.entries@);
        }
        self.entries.push(CacheEntry { line, shaped });
    }

    /// Drop the cached shaped line of the given line index, if any.
    pub fn remove(&mut self, line: usize)
        requires
            old(self).wf(),
        ensures
            final(self).wf(),
            final(self)@ =~= old(self)@.remove(line as int),
    {
        let n = self.entries.len();
        let mut i: usize = 0;
        while i < n
            invariant
                i <= n,
                n == self.entries@.len(),
                self.wf(),
                self@ == old(self)@,
                self.entries@ == old(self).entries@,
                forall|j: int| 0 <= j < i ==> (#[trigger] self.entries@[j]).line != line,
            decreases n - i,
        {
            if self.entries[i].line == line {
                proof {
                    lemma_cache_map_remove(self.entries@, i as int);
                    assert forall|a: int, b: int|
                        0 <= a < b < self.entries@.remove(i as int).len() implies (
                    #[trigger] self.entries@.remove(i as int)[a]).line != (
                    #[trigger] self.entries@.remove(i as int)[b]).line by {
                        if b < i {
                        } else if a < i {
                            assert(self.entries@.remove(i as int)[b] == self.entries@[b + 1]);
                        } else {
                            assert(self.entries@.remove(i as int)[a] == self.entries@[a + 1]);
                            assert(self.entries@.remove(i as int)[b] == self.entries@[b + 1]);
                        }
                    }
                }
                self.entries.remove(i);
                return ;
            }
            i = i + 1;
        }
        proof {
            lemma_cache_map_dom(self.entries@, line as int);
            assert(final(self)@ =~= old(self)@.remove(line as int));
        }
    }

    /// Drop the cached shaped lines of every line index in the inclusive
    /// range.
    pub fn remove_range(&mut self, from: usize, to: usize)
        requires
            old(self).wf(),
        ensures
            final(self).wf(),
            forall|k: int|
                final(self)@.contains_key(k) <==> (old(self)@.contains_key(k) && !(from <= k
                    <= to)),
            forall|k: int|
                #[trigger] final(self)@.contains_key(k) ==> final(self)@[k] == old(self)@[k],
    {
        let ghost orig = self.entries@;
        let mut out: Vec<CacheEntry> = Vec::new();
        let mut i: usize = 0;
        let n = self.entries.len();
        while i < n
            invariant
                i <= n,
                n == orig.len(),
                cache_keys_unique(orig),
                self.entries@ == orig.subrange(i as int, n as int),
                forall|q: int|
                    0 <= q < out@.len() ==> exists|j: int|
                        0 <= j < i && #[trigger] out@[q] == orig[j],
                cache_keys_unique(out@),
                forall|k: int|
                    cache_map(out@).contains_key(k) <==> (cache_map(
                        orig.subrange(0, i as int),
                    ).contains_key(k) && !(from <= k <= to)),
                forall|k: int|
                    #[trigger] cache_map(out@).contains_key(k) ==> cache_map(out@)[k] == cache_map(
                        orig.subrange(0, i as int),
                    )[k],
            decreases n - i,
        {
            let e = self.entries.remove(0);
            proof {
                assert(e == orig[i as int]);
                assert(orig.subrange(i as int, n as int).remove(0) =~= orig.subrange(
                    i as int + 1,
                    n as int,
                ));
            }
            let ghost pre = orig.subrange(0, i as int);
            let ghost out0 = out@;
            let keep = e.line < from || e.line > to;
            if keep {
                out.push(e);
            }
            proof {
                let cur = orig.subrange(0, i as int + 1);
                assert(cur.drop_last() =~= pre);
                assert(cur.last() == orig[i as int]);
                if keep {
                    assert(out@.drop_last() =~= out0);
                    assert(out@.last() == orig[i as int]);
                    assert forall|q: int|
                        0 <= q < out@.len() implies exists|j: int|
                        0 <= j < i + 1 && #[trigger] out@[q] == orig[j] by {
                        if q < out0.len() {
                            assert(out@[q] == out0[q]);
                            let j = choose|j: int| 0 <= j < i && out0[q] == orig[j];
                            assert(out@[q] == orig[j]);
                        } else {
                            assert(out@[q] == orig[i as int]);
                        }
                    }
                    assert forall|a: int, b: int| 0 <= a < b < out@.len() implies (
                    #[trigger] out@[a]).line != (#[trigger] out@[b]).line by {
                        if b == out@.len() - 1 {
                            let j = choose|j: int| 0 <= j < i && out0[a] == orig[j];
                            assert(out@[a].line == orig[j].line);
                            assert(out@[b].line == orig[i as int].line);
                        }
                    }
                } else {
                    // The dropped entry's key is in the removed range and
                    // cannot already stand in the output.
                    assert(!cache_map(out@).contains_key(orig[i as int].line as int)) by {
                        lemma_cache_map_dom(out@, orig[i as int].line as int);
                        if cache_map(out@).contains_key(orig[i as int].line as int) {
                            let q = choose|q: int|
                                0 <= q < out@.len() && out@[q].line == orig[i as int].line;
                            let j = choose|j: int| 0 <= j < i && out@[q] == orig[j];
                            assert(orig[j].line == orig[i as int].line);
                            assert(false);
                        }
                    }
                }
                assert(cache_map(cur) =~= cache_map(pre).insert(
                    orig[i as int].line as int,
                    orig[i as int].shaped,
                ));
                if keep {
                    assert(cache_map(out@) =~= cache_map(out0).insert(
                        orig[i as int].line as int,
                        orig[i as int].shaped,
                    ));
                }
                assert forall|k: int| cache_map(out@).contains_key(k) <==> (cache_map(
                    cur,
                ).contains_key(k) && !(from <= k <= to)) by {
                    if k != orig[i as int].line {
                        assert(cache_map(cur).contains_key(k) == cache_map(pre).contains_key(k));
                        if keep {
                            assert(cache_map(out@).contains_key(k) == cache_map(
                                out0,
                            ).contains_key(k));
                        }
                    }
                }
                assert forall|k: int| #[trigger] cache_map(out@).contains_key(k) implies cache_map(
                    out@,
                )[k] == cache_map(cur)[k] by {
                    if k != orig[i as int].line {
                        assert(cache_map(cur)[k] == cache_map(pre)[k]);
                        if keep {
                            assert(cache_map(out@)[k] == cache_map(out0)[k]);
                        }
                    }
                }
            }
            i = i + 1;
        }
        proof {
            assert(orig.subrange(0, n as int) =~= orig);
        }
        self.entries = out;
    }

    /// Shift every cached line index strictly above the threshold by the
    /// given difference, carrying the shaped lines along unchanged. Shifted
    /// indices must stay in range and must not land on a kept index.
    pub fn shift_above(&mut self, threshold: usize, diff: crate::unit::LineDiff)
        requires
            old(self).wf(),
            diff.value > i128::MIN,
            forall|k: int|
                #[trigger] old(self)@.contains_key(k) && k > threshold ==> 0 <= k + diff.value
                    <= usize::MAX,
            forall|k1: int, k2: int|
                old(self)@.contains_key(k1) && old(self)@.contains_key(k2) && k1 <= threshold
                    < k2 ==> k1 != k2 + diff.value,
        ensures
            final(self).wf(),
            forall|k: int|
                final(self)@.contains_key(k) <==> ((old(self)@.contains_key(k) && k <= threshold)
                    || (old(self)@.contains_key(k - diff.value) && k - diff.value > threshold)),
            forall|k: int|
                #[trigger] old(self)@.contains_key(k) && k <= threshold ==> final(self)@[k] == old(
                    self,
                )@[k],
            forall|k: int|
                #[trigger] old(self)@.contains_key(k) && k > threshold ==> final(self)@[k
                    + diff.value] == old(self)@[k],
    {
        let ghost orig = self.entries@;
        let n = self.entries.len();
        let mut out: Vec<CacheEntry> = Vec::new();
        let mut i: usize = 0;
        while i < n
            invariant
                i <= n,
                n == orig.len(),
                cache_keys_unique(orig),
                cache_map(orig) == old(self)@,
                self.entries@ == orig.subrange(i as int, n as int),
                diff.value > i128::MIN,
                forall|k: int|
                    #[trigger] old(self)@.contains_key(k) && k > threshold ==> 0 <= k + diff.value
                        <= usize::MAX,
                out@.len() == i,
                forall|q: int|
                    0 <= q < i ==> (#[trigger] out@[q]).shaped == orig[q].shaped && (if
                    orig[q].line <= threshold {
                        out@[q].line == orig[q].line
                    } else {
                        out@[q].line == orig[q].line + diff.value
                    }),
            decreases n - i,
        {
            let e = self.entries.remove(0);
            proof {
                assert(e == orig[i as int]);
                assert(orig.subrange(i as int, n as int).remove(0) =~= orig.subrange(
                    i as int + 1,
                    n as int,
                ));
                lemma_cache_map_index(orig, i as int);
            }
            if e.line <= threshold {
                out.push(e);
            } else {
                let d = diff.value;
                let line = e.line;
                let new_line: usize = if d >= 0 {
                    line + (d as usize)
                } else {
                    line - ((-d) as usize)
                };
                out.push(CacheEntry { line: new_line, shaped: e.shaped });
            }
            i = i + 1;
        }
        proof {
            lemma_shifted_maps(orig, out@, threshold as int, diff.value as int);
        }
        self.entries = out;
    }
}

/// The map denoted by a shifted entry list: kept keys stay bound, shifted
/// keys move with their values, and nothing else appears.
proof fn lemma_shifted_maps(
    entries: Seq<CacheEntry>,
    out: Seq<CacheEntry>,
    threshold: int,
    diff: int,
)
    requires
        cache_keys_unique(entries),
        out.len() == entries.len(),
        forall|q: int|
            0 <= q < entries.len() ==> (#[trigger] out[q]).shaped == entries[q].shaped && (if
            entries[q].line <= threshold {
                out[q].line == entries[q].line
            } else {
                out[q].line == entries[q].line + diff
            }),
        forall|k: int|
            #[trigger] cache_map(entries).contains_key(k) && k > threshold ==> 0 <= k + diff
                <= usize::MAX,
        forall|k1: int, k2: int|
            cache_map(entries).contains_key(k1) && cache_map(entries).contains_key(k2) && k1
                <= threshold < k2 ==> k1 != k2 + diff,
    ensures
        cache_keys_unique(out),
        forall|k: int|
            cache_map(out).contains_key(k) <==> ((cache_map(entries).contains_key(k) && k
                <= threshold) || (cache_map(entries).contains_key(k - diff) && k - diff
                > threshold)),
        forall|k: int|
            #[trigger] cache_map(entries).contains_key(k) && k <= threshold ==> cache_map(out)[k]
                == cache_map(entries)[k],
        forall|k: int|
            #[trigger] cache_map(entries).contains_key(k) && k > threshold ==> cache_map(out)[k
                + diff] == cache_map(entries)[k],
{
    assert forall|q: int| 0 <= q < entries.len() implies cache_map(entries).contains_key(
        (#[trigger] entries[q]).line as int,
    ) by {
        lemma_cache_map_index(entries, q);
    }
    assert forall|a: int, b: int| 0 <= a < b < out.len() implies (#[trigger] out[a]).line != (
    #[trigger] out[b]).line by {
        let la = entries[a].line as int;
        let lb = entries[b].line as int;
        if la <= threshold && lb <= threshold {
        } else if la <= threshold && lb > threshold {
        } else if la > threshold && lb <= threshold {
        } else {
        }
    }
    assert forall|k: int| cache_map(out).contains_key(k) implies ((cache_map(
        entries,
    ).contains_key(k) && k <= threshold) || (cache_map(entries).contains_key(k - diff) && k - diff
        > threshold)) by {
        lemma_cache_map_dom(out, k);
        let q = choose|q: int| 0 <= q < out.len() && out[q].line == k;
        lemma_cache_map_index(entries, q);
        if entries[q].line <= threshold {
        } else {
            assert(k - diff == entries[q].line);
        }
    }
    assert forall|k: int| ((cache_map(entries).contains_key(k) && k <= threshold) || (cache_map(
        entries,
    ).contains_key(k - diff) && k - diff > threshold)) implies cache_map(out).contains_key(k) by {
        lemma_cache_map_dom(out, k);
        if cache_map(entries).contains_key(k) && k <= threshold {
            lemma_cache_map_dom(entries, k);
            let q = choose|q: int| 0 <= q < entries.len() && entries[q].line == k;
            assert(out[q].line == k);
        } else {
            lemma_cache_map_dom(entries, k - diff);
            let q = choose|q: int| 0 <= q < entries.len() && entries[q].line == k - diff;
            assert(out[q].line == k);
        }
    }
    assert forall|k: int|
        #[trigger] cache_map(entries).contains_key(k) && k <= threshold implies cache_map(out)[k]
        == cache_map(entries)[k] by {
        lemma_cache_map_dom(entries, k);
        let q = choose|q: int| 0 <= q < entries.len() && entries[q].line == k;
        lemma_cache_map_index(entries, q);
        lemma_cache_map_index(out, q);
    }
    assert forall|k: int|
        #[trigger] cache_map(entries).contains_key(k) && k > threshold implies cache_map(out)[k
        + diff] == cache_map(entries)[k] by {
        lemma_cache_map_dom(entries, k);
        let q = choose|q: int| 0 <= q < entries.len() && entries[q].line == k;
        lemma_cache_map_index(entries, q);
        lemma_cache_map_index(out, q);
    }
}

} // verus!

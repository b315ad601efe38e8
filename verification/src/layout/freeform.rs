//! Freeform layouts: each display at an explicit grid cell with its own rotation.
//!
//! Columns are laid out left to right in column order, each as wide as its
//! widest tile; rows top to bottom, each as tall as its tallest tile.
use vstd::prelude::*;
use std::collections::BTreeMap;
use crate::discovery::DisplayInfo;
use crate::error::PaintressError;
use crate::image::Rotation;
use super::{Layout, Placement, tile_inside, tiles_disjoint};

verus! {

broadcast use vstd::std_specs::btree::group_btree_axioms;

/// One display placed at a grid cell.
#[derive(Debug)]
pub struct FreeformEntry {
    pub display: DisplayInfo,
    pub col: u32,
    pub row: u32,
    pub rotation: Rotation,
}

impl Clone for FreeformEntry {
    fn clone(&self) -> (r: Self)
        ensures
            r == *self,
    {
        FreeformEntry {
            display: self.display.clone(),
            col: self.col,
            row: self.row,
            rotation: self.rotation,
        }
    }
}

/// Size of an entry's tile on the canvas.
pub open spec fn tile_dims(e: FreeformEntry) -> (u32, u32) {
    e.rotation.spec_canvas_dims(e.display.width, e.display.height)
}

/// The band (column, or row when `vertical`) an entry sits in.
pub open spec fn band_key(e: FreeformEntry, vertical: bool) -> u32 {
    if vertical {
        e.row
    } else {
        e.col
    }
}

/// The extent of an entry's tile across its band: width for a column, height for a row.
pub open spec fn band_extent(e: FreeformEntry, vertical: bool) -> u32 {
    if vertical {
        tile_dims(e).1
    } else {
        tile_dims(e).0
    }
}

/// Size of band `k`: the largest extent of a tile in it, 0 for an empty band.
pub open spec fn band_size(es: Seq<FreeformEntry>, vertical: bool, k: int) -> nat
    decreases es.len(),
{
    if es.len() == 0 {
        0
    } else {
        let rest = band_size(es.drop_last(), vertical, k);
        let e = es.last();
        if band_key(e, vertical) == k && band_extent(e, vertical) > rest {
            band_extent(e, vertical) as nat
        } else {
            rest
        }
    }
}

/// Where band `k` starts: the total size of all bands before it.
pub open spec fn band_offset(es: Seq<FreeformEntry>, vertical: bool, k: nat) -> nat
    decreases k,
{
    if k == 0 {
        0
    } else {
        band_offset(es, vertical, (k - 1) as nat) + band_size(es, vertical, k - 1)
    }
}

/// The total size of all bands (the canvas width, or height when `vertical`).
pub open spec fn band_total(es: Seq<FreeformEntry>, vertical: bool) -> nat {
    band_offset(es, vertical, 0x1_0000_0000)
}

/// The placement of entry `e` among entries `es`.
pub open spec fn placement_of(es: Seq<FreeformEntry>, e: FreeformEntry) -> Placement {
    Placement {
        display: e.display,
        x: band_offset(es, false, e.col as nat) as u32,
        y: band_offset(es, true, e.row as nat) as u32,
        canvas_w: tile_dims(e).0,
        canvas_h: tile_dims(e).1,
        rotation: e.rotation,
    }
}

proof fn lemma_band_size_absent(es: Seq<FreeformEntry>, vertical: bool, k: int)
    requires
        forall|j: int| 0 <= j < es.len() ==> band_key(#[trigger] es[j], vertical) != k,
    ensures
        band_size(es, vertical, k) == 0,
    decreases es.len(),
{
    if es.len() > 0 {
        lemma_band_size_absent(es.drop_last(), vertical, k);
    }
}

proof fn lemma_band_size_covers(es: Seq<FreeformEntry>, vertical: bool, j: int)
    requires
        0 <= j < es.len(),
    ensures
        band_size(es, vertical, band_key(es[j], vertical) as int) >= band_extent(es[j], vertical),
    decreases es.len(),
{
    if j < es.len() - 1 {
        lemma_band_size_covers(es.drop_last(), vertical, j);
    }
}

proof fn lemma_offset_gap(es: Seq<FreeformEntry>, vertical: bool, a: nat, b: nat)
    requires
        a < b,
        forall|j: int|
            0 <= j < es.len() ==> !(a < band_key(#[trigger] es[j], vertical) < b),
    ensures
        band_offset(es, vertical, b) == band_offset(es, vertical, a) + band_size(
            es,
            vertical,
            a as int,
        ),
    decreases b,
{
    if b > a + 1 {
        lemma_offset_gap(es, vertical, a, (b - 1) as nat);
        lemma_band_size_absent(es, vertical, b - 1);
    }
}

proof fn lemma_offset_zero_below(es: Seq<FreeformEntry>, vertical: bool, b: nat)
    requires
        forall|j: int| 0 <= j < es.len() ==> band_key(#[trigger] es[j], vertical) >= b,
    ensures
        band_offset(es, vertical, b) == 0,
    decreases b,
{
    if b > 0 {
        lemma_offset_zero_below(es, vertical, (b - 1) as nat);
        lemma_band_size_absent(es, vertical, b - 1);
    }
}

pub(crate) proof fn lemma_offset_monotone(es: Seq<FreeformEntry>, vertical: bool, a: nat, b: nat)
    requires
        a <= b,
    ensures
        band_offset(es, vertical, a) <= band_offset(es, vertical, b),
    decreases b,
{
    if a < b {
        lemma_offset_monotone(es, vertical, a, (b - 1) as nat);
    }
}

/// Band sizes by band key: every band an entry sits in is present, with its size.
pub open spec fn sizes_ok(es: Seq<FreeformEntry>, vertical: bool, sizes: Map<u32, u32>) -> bool {
    &&& forall|k: u32| #[trigger]
        sizes.contains_key(k) ==> sizes[k] == band_size(es, vertical, k as int)
    &&& forall|j: int|
        0 <= j < es.len() ==> #[trigger] sizes.contains_key(band_key(es[j], vertical))
}

/// Bands in increasing key order, each with its size, and covering every entry.
pub open spec fn bands_ok(es: Seq<FreeformEntry>, vertical: bool, bands: Seq<(u32, u32)>) -> bool {
    &&& forall|b1: int, b2: int|
        0 <= b1 < b2 < bands.len() ==> #[trigger] bands[b1].0 < #[trigger] bands[b2].0
    &&& forall|b: int|
        0 <= b < bands.len() ==> #[trigger] bands[b].1 == band_size(es, vertical, bands[b].0 as int)
    &&& forall|j: int|
        0 <= j < es.len() ==> exists|b: int|
            0 <= b < bands.len() && #[trigger] bands[b].0 == band_key(#[trigger] es[j], vertical)
}

/// The size of each band an entry sits in, keyed by the band.
fn band_sizes(es: &Vec<FreeformEntry>, vertical: bool) -> (sizes: BTreeMap<u32, u32>)
    ensures
        sizes_ok(es@, vertical, sizes@),
{
    let mut sizes: BTreeMap<u32, u32> = BTreeMap::new();
    let mut i: usize = 0;
    while i < es.len()
        invariant
            i <= es@.len(),
            sizes_ok(es@.take(i as int), vertical, sizes@),
        decreases es@.len() - i,
    {
        let e = &es[i];
        let key = if vertical {
            e.row
        } else {
            e.col
        };
        let dims = e.rotation.canvas_dims(e.display.width, e.display.height);
        let ext = if vertical {
            dims.1
        } else {
            dims.0
        };
        let ghost prev = es@.take(i as int);
        let ghost next = es@.take(i + 1);
        let ghost old_sizes = sizes@;
        assert(next.drop_last() =~= prev);
        assert(next.last() == es@[i as int]);
        let size = match sizes.get(&key) {
            Some(w) => {
                if ext > *w {
                    ext
                } else {
                    *w
                }
            },
            None => {
                proof {
                    assert forall|j: int| 0 <= j < prev.len() implies band_key(
                        #[trigger] prev[j],
                        vertical,
                    ) != key by {
                        assert(old_sizes.contains_key(band_key(prev[j], vertical)));
                    }
                    lemma_band_size_absent(prev, vertical, key as int);
                }
                ext
            },
        };
        sizes.insert(key, size);
        proof {
            assert forall|k: u32| #[trigger] sizes@.contains_key(k) implies sizes@[k] == band_size(
                next,
                vertical,
                k as int,
            ) by {
                if k != key {
                    assert(old_sizes.contains_key(k));
                }
            }
            assert forall|j: int| 0 <= j < next.len() implies #[trigger] sizes@.contains_key(
                band_key(next[j], vertical),
            ) by {
                if j < i {
                    assert(prev[j] == next[j]);
                    assert(old_sizes.contains_key(band_key(prev[j], vertical)));
                }
            }
        }
        i += 1;
    }
    assert(es@.take(es@.len() as int) =~= es@);
    sizes
}

/// Keys that a map's iterator hands out in increasing order are strictly increasing.
proof fn lemma_walk_increasing(s: Seq<(&u32, &u32)>)
    requires
        vstd::std_specs::btree::increasing_seq(s.map_values(|kv: (&u32, &u32)| *kv.0)),
    ensures
        forall|a: int, b: int| 0 <= a < b < s.len() ==> *s[a].0 < *s[b].0,
{
    let keys = s.map_values(|kv: (&u32, &u32)| *kv.0);
    assert forall|a: int, b: int| 0 <= a < b < s.len() implies *s[a].0 < *s[b].0 by {
        assert(keys[a] == *s[a].0);
        assert(keys[b] == *s[b].0);
        assert(vstd::laws_cmp::obeys_cmp::<u32>());
        assert(vstd::std_specs::cmp::OrdSpec::cmp_spec(&keys[a], &keys[b]) is Less);
    }
}

/// The key and size pairs of a walk over band sizes.
pub open spec fn walk_bands(s: Seq<(&u32, &u32)>) -> Seq<(u32, u32)> {
    s.map_values(|kv: (&u32, &u32)| (*kv.0, *kv.1))
}

/// Walking band sizes in increasing key order gives bands in order, with their sizes,
/// covering every entry.
proof fn lemma_walk_bands(
    es: Seq<FreeformEntry>,
    vertical: bool,
    sizes: Map<u32, u32>,
    s: Seq<(&u32, &u32)>,
)
    requires
        sizes_ok(es, vertical, sizes),
        vstd::std_specs::btree::increasing_seq(s.map_values(|kv: (&u32, &u32)| *kv.0)),
        forall|i: int|
            0 <= i < s.len() ==> sizes.contains_key(*s[i].0) && sizes[*s[i].0] == *s[i].1,
        forall|k: u32| #[trigger] sizes.contains_key(k) ==> s.contains((&k, &sizes[k])),
    ensures
        bands_ok(es, vertical, walk_bands(s)),
{
    lemma_walk_increasing(s);
    let bands = walk_bands(s);
    assert forall|b: int| 0 <= b < bands.len() implies #[trigger] bands[b].1 == band_size(
        es,
        vertical,
        bands[b].0 as int,
    ) by {
        assert(sizes.contains_key(*s[b].0));
    }
    assert forall|j: int| 0 <= j < es.len() implies exists|b: int|
        0 <= b < bands.len() && #[trigger] bands[b].0 == band_key(#[trigger] es[j], vertical) by {
        let k = band_key(es[j], vertical);
        assert(sizes.contains_key(k));
        assert(s.contains((&k, &sizes[k])));
        let b = choose|b: int| 0 <= b < s.len() && s[b] == (&k, &sizes[k]);
        assert(bands[b].0 == k);
    }
}

/// Where the band after band `b` starts (past the last key for the last band).
pub open spec fn walk_next(bands: Seq<(u32, u32)>, b: int) -> nat {
    if b + 1 < bands.len() {
        bands[b + 1].0 as nat
    } else {
        0x1_0000_0000
    }
}

/// A walk over the bands starts at offset 0; with no bands, the total is 0.
proof fn lemma_walk_start(es: Seq<FreeformEntry>, vertical: bool, bands: Seq<(u32, u32)>)
    requires
        bands_ok(es, vertical, bands),
    ensures
        bands.len() > 0 ==> band_offset(es, vertical, bands[0].0 as nat) == 0,
        bands.len() == 0 ==> band_total(es, vertical) == 0,
{
    if bands.len() > 0 {
        assert forall|j: int| 0 <= j < es.len() implies band_key(
            #[trigger] es[j],
            vertical,
        ) >= bands[0].0 by {
            let b = choose|b: int|
                0 <= b < bands.len() && #[trigger] bands[b].0 == band_key(es[j], vertical);
            if b > 0 {
                assert(bands[0].0 < bands[b].0);
            }
        }
        lemma_offset_zero_below(es, vertical, bands[0].0 as nat);
    } else {
        assert forall|j: int| 0 <= j < es.len() implies band_key(
            #[trigger] es[j],
            vertical,
        ) >= 0x1_0000_0000 by {
            let b = choose|b: int|
                0 <= b < bands.len() && #[trigger] bands[b].0 == band_key(es[j], vertical);
        }
        lemma_offset_zero_below(es, vertical, 0x1_0000_0000);
    }
}

/// One step of a walk over the bands: the next band starts where band `b` ends, and
/// no later than the total.
proof fn lemma_walk_step(es: Seq<FreeformEntry>, vertical: bool, bands: Seq<(u32, u32)>, b: int)
    requires
        bands_ok(es, vertical, bands),
        0 <= b < bands.len(),
    ensures
        band_offset(es, vertical, walk_next(bands, b)) == band_offset(
            es,
            vertical,
            bands[b].0 as nat,
        ) + bands[b].1,
        band_offset(es, vertical, walk_next(bands, b)) <= band_total(es, vertical),
        b + 1 == bands.len() ==> band_offset(es, vertical, walk_next(bands, b)) == band_total(
            es,
            vertical,
        ),
{
    let k = bands[b].0 as nat;
    let next = walk_next(bands, b);
    assert forall|j: int| 0 <= j < es.len() implies !(k < band_key(#[trigger] es[j], vertical)
        < next) by {
        let c = choose|c: int|
            0 <= c < bands.len() && #[trigger] bands[c].0 == band_key(es[j], vertical);
        if c < b {
            assert(bands[c].0 < bands[b].0);
        } else if c > b + 1 {
            assert(bands[b + 1].0 < bands[c].0);
        }
    }
    lemma_offset_gap(es, vertical, k, next);
    lemma_offset_monotone(es, vertical, next, 0x1_0000_0000);
}

/// The offset of every band an entry sits in, keyed by the band, and the total size
/// of all bands.
fn band_offsets(es: &Vec<FreeformEntry>, vertical: bool, sizes: &BTreeMap<u32, u32>) -> (r: (
    BTreeMap<u32, u32>,
    u32,
))
    requires
        sizes_ok(es@, vertical, sizes@),
        band_total(es@, vertical) <= u32::MAX,
    ensures
        forall|j: int|
            0 <= j < es@.len() ==> r.0@.contains_key(band_key(#[trigger] es@[j], vertical))
                && r.0@[band_key(es@[j], vertical)] == band_offset(
                es@,
                vertical,
                band_key(es@[j], vertical) as nat,
            ),
        r.1 == band_total(es@, vertical),
{
    let mut offsets: BTreeMap<u32, u32> = BTreeMap::new();
    let mut acc: u32 = 0;
    let iter = sizes.iter();
    let ghost s = vstd::std_specs::iter::IteratorSpec::remaining(&iter);
    let ghost bands = walk_bands(s);
    proof {
        lemma_walk_bands(es@, vertical, sizes@, s);
        lemma_walk_start(es@, vertical, bands);
    }
    for kw in it: iter
        invariant
            it.seq() == s,
            bands == walk_bands(s),
            bands_ok(es@, vertical, bands),
            band_total(es@, vertical) <= u32::MAX,
            0 <= it.index() <= bands.len(),
            forall|c: int| 0 <= c < it.index() ==> #[trigger] offsets@.contains_key(bands[c].0),
            forall|c: int|
                0 <= c < it.index() ==> #[trigger] offsets@[bands[c].0] == band_offset(
                    es@,
                    vertical,
                    bands[c].0 as nat,
                ),
            it.index() < bands.len() ==> acc == band_offset(
                es@,
                vertical,
                bands[it.index()].0 as nat,
            ),
            it.index() == bands.len() ==> acc == band_total(es@, vertical),
    {
        let ghost b = it.index();
        assert(bands[b] == (*kw.0, *kw.1));
        let ghost old_offsets = offsets@;
        offsets.insert(*kw.0, acc);
        proof {
            lemma_walk_step(es@, vertical, bands, b);
            assert forall|c: int| 0 <= c <= b implies #[trigger] offsets@.contains_key(bands[c].0)
                && offsets@[bands[c].0] == band_offset(es@, vertical, bands[c].0 as nat) by {
                if c < b {
                    assert(bands[c].0 < bands[b].0);
                    assert(old_offsets.contains_key(bands[c].0));
                }
            }
        }
        acc = acc + *kw.1;
    }
    proof {
        assert forall|j: int| 0 <= j < es@.len() implies offsets@.contains_key(
            band_key(#[trigger] es@[j], vertical),
        ) && offsets@[band_key(es@[j], vertical)] == band_offset(
            es@,
            vertical,
            band_key(es@[j], vertical) as nat,
        ) by {
            let c = choose|c: int|
                0 <= c < bands.len() && #[trigger] bands[c].0 == band_key(es@[j], vertical);
            assert(offsets@.contains_key(bands[c].0));
        }
    }
    (offsets, acc)
}

/// Whether the bands' total size fits in 32 bits.
fn band_total_fits(es: &Vec<FreeformEntry>, vertical: bool) -> (r: bool)
    ensures
        r == (band_total(es@, vertical) <= u32::MAX),
{
    let sizes = band_sizes(es, vertical);
    let mut acc: u64 = 0;
    let iter = sizes.iter();
    let ghost s = vstd::std_specs::iter::IteratorSpec::remaining(&iter);
    let ghost bands = walk_bands(s);
    proof {
        lemma_walk_bands(es@, vertical, sizes@, s);
        lemma_walk_start(es@, vertical, bands);
    }
    for kw in it: iter
        invariant
            it.seq() == s,
            bands == walk_bands(s),
            bands_ok(es@, vertical, bands),
            acc <= u32::MAX,
            it.index() < bands.len() ==> acc == band_offset(
                es@,
                vertical,
                bands[it.index()].0 as nat,
            ),
            it.index() == bands.len() ==> acc == band_total(es@, vertical),
    {
        let ghost b = it.index();
        assert(bands[b] == (*kw.0, *kw.1));
        proof {
            lemma_walk_step(es@, vertical, bands, b);
        }
        acc = acc + *kw.1 as u64;
        if acc > u32::MAX as u64 {
            return false;
        }
    }
    true
}

/// A freeform layout where each display is placed at an explicit grid position
/// with independent rotation.
pub struct FreeformBuilder {
    entries: Vec<FreeformEntry>,
}

impl View for FreeformBuilder {
    type V = Seq<FreeformEntry>;

    closed spec fn view(&self) -> Seq<FreeformEntry> {
        self.entries@
    }
}

/// A finished freeform layout.
pub struct FreeformLayout {
    canvas_w: u32,
    canvas_h: u32,
    placements: Vec<Placement>,
}

impl View for FreeformLayout {
    /// Canvas width, canvas height and the placements.
    type V = (u32, u32, Seq<Placement>);

    closed spec fn view(&self) -> (u32, u32, Seq<Placement>) {
        (self.canvas_w, self.canvas_h, self.placements@)
    }
}

/// Whether the canvas that entries `es` span fits in 32-bit pixel coordinates.
pub open spec fn canvas_fits(es: Seq<FreeformEntry>) -> bool {
    band_total(es, false) <= u32::MAX && band_total(es, true) <= u32::MAX
}

impl FreeformBuilder {
    /// An empty builder.
    pub fn new() -> (b: Self)
        ensures
            b@ == Seq::<FreeformEntry>::empty(),
    {
        FreeformBuilder { entries: Vec::new() }
    }

    /// Place a display at the given grid (col, row) with a rotation.
    pub fn place(self, display: &DisplayInfo, col: u32, row: u32, rotation: Rotation) -> (b: Self)
        ensures
            b@ == self@.push(FreeformEntry { display: *display, col, row, rotation }),
    {
        let mut entries = self.entries;
        entries.push(FreeformEntry { display: display.clone(), col, row, rotation });
        FreeformBuilder { entries }
    }

    /// Whether the canvas the placed displays span fits in 32-bit pixel coordinates
    /// (what `build` needs).
    pub fn fits_canvas(&self) -> (r: bool)
        ensures
            r == canvas_fits(self@),
    {
        band_total_fits(&self.entries, false) && band_total_fits(&self.entries, true)
    }

    /// Lay the placed displays out: every column is as wide as its widest tile and
    /// starts where the columns before it end; likewise for rows.
    pub fn build(self) -> (r: Result<FreeformLayout, PaintressError>)
        requires
            canvas_fits(self@),
        ensures
            r matches Ok(layout) && layout@.0 == band_total(self@, false) && layout@.1
                == band_total(self@, true) && layout@.2.len() == self@.len() && forall|i: int|
                0 <= i < self@.len() ==> #[trigger] layout@.2[i] == placement_of(self@, self@[i]),
    {
        let es = &self.entries;
        let col_widths = band_sizes(es, false);
        let row_heights = band_sizes(es, true);
        let (col_offsets, canvas_w) = band_offsets(es, false, &col_widths);
        let (row_offsets, canvas_h) = band_offsets(es, true, &row_heights);
        let mut placements: Vec<Placement> = Vec::new();
        let mut i: usize = 0;
        while i < es.len()
            invariant
                es@ == self@,
                forall|j: int|
                    0 <= j < es@.len() ==> col_offsets@.contains_key(#[trigger] es@[j].col)
                        && col_offsets@[es@[j].col] == band_offset(es@, false, es@[j].col as nat),
                forall|j: int|
                    0 <= j < es@.len() ==> row_offsets@.contains_key(#[trigger] es@[j].row)
                        && row_offsets@[es@[j].row] == band_offset(es@, true, es@[j].row as nat),
                i <= es@.len(),
                placements@.len() == i,
                forall|k: int|
                    0 <= k < i ==> #[trigger] placements@[k] == placement_of(es@, es@[k]),
            decreases es@.len() - i,
        {
            let e = &es[i];
            let x = *col_offsets.get(&e.col).unwrap();
            let y = *row_offsets.get(&e.row).unwrap();
            let dims = e.rotation.canvas_dims(e.display.width, e.display.height);
            placements.push(
                Placement {
                    display: e.display.clone(),
                    x,
                    y,
                    canvas_w: dims.0,
                    canvas_h: dims.1,
                    rotation: e.rotation,
                },
            );
            i += 1;
        }
        Ok(FreeformLayout { canvas_w, canvas_h, placements })
    }
}

/// The tile of band `k` ends no later than where band `k + 1` starts.
proof fn lemma_band_end(es: Seq<FreeformEntry>, vertical: bool, j: int)
    requires
        0 <= j < es.len(),
    ensures
        band_offset(es, vertical, band_key(es[j], vertical) as nat) + band_extent(es[j], vertical)
            <= band_offset(es, vertical, (band_key(es[j], vertical) + 1) as nat),
{
    lemma_band_size_covers(es, vertical, j);
}

/// Every freeform tile lies inside the canvas.
pub proof fn lemma_freeform_tiles_inside(es: Seq<FreeformEntry>, i: int)
    requires
        canvas_fits(es),
        0 <= i < es.len(),
    ensures
        tile_inside(placement_of(es, es[i]), band_total(es, false), band_total(es, true)),
{
    lemma_band_end(es, false, i);
    lemma_band_end(es, true, i);
    lemma_offset_monotone(es, false, (es[i].col + 1) as nat, 0x1_0000_0000);
    lemma_offset_monotone(es, true, (es[i].row + 1) as nat, 0x1_0000_0000);
    lemma_offset_monotone(es, false, es[i].col as nat, 0x1_0000_0000);
    lemma_offset_monotone(es, true, es[i].row as nat, 0x1_0000_0000);
}

/// Tiles in different cells never overlap; tiles in one column share their left
/// edge and tiles in one row share their top edge.
pub proof fn lemma_freeform_tiles_disjoint(es: Seq<FreeformEntry>, i: int, j: int)
    requires
        canvas_fits(es),
        0 <= i < es.len(),
        0 <= j < es.len(),
    ensures
        (es[i].col != es[j].col || es[i].row != es[j].row) ==> tiles_disjoint(
            placement_of(es, es[i]),
            placement_of(es, es[j]),
        ),
        es[i].col == es[j].col ==> placement_of(es, es[i]).x == placement_of(es, es[j]).x,
        es[i].row == es[j].row ==> placement_of(es, es[i]).y == placement_of(es, es[j]).y,
{
    lemma_freeform_tiles_inside(es, i);
    lemma_freeform_tiles_inside(es, j);
    lemma_band_end(es, false, i);
    lemma_band_end(es, true, i);
    lemma_band_end(es, false, j);
    lemma_band_end(es, true, j);
    lemma_offset_monotone(es, false, es[i].col as nat, 0x1_0000_0000);
    lemma_offset_monotone(es, true, es[i].row as nat, 0x1_0000_0000);
    lemma_offset_monotone(es, false, es[j].col as nat, 0x1_0000_0000);
    lemma_offset_monotone(es, true, es[j].row as nat, 0x1_0000_0000);
    if es[i].col < es[j].col {
        lemma_offset_monotone(es, false, (es[i].col + 1) as nat, es[j].col as nat);
    } else if es[j].col < es[i].col {
        lemma_offset_monotone(es, false, (es[j].col + 1) as nat, es[i].col as nat);
    } else if es[i].row < es[j].row {
        lemma_offset_monotone(es, true, (es[i].row + 1) as nat, es[j].row as nat);
    } else if es[j].row < es[i].row {
        lemma_offset_monotone(es, true, (es[j].row + 1) as nat, es[i].row as nat);
    }
}

proof fn lemma_band_size_witness(es: Seq<FreeformEntry>, vertical: bool, k: int)
    ensures
        band_size(es, vertical, k) == 0 || exists|j: int|
            0 <= j < es.len() && band_key(es[j], vertical) == k && band_extent(
                #[trigger] es[j],
                vertical,
            ) == band_size(es, vertical, k),
    decreases es.len(),
{
    if es.len() > 0 {
        let prev = es.drop_last();
        lemma_band_size_witness(prev, vertical, k);
        if band_size(es, vertical, k) != band_extent(es.last(), vertical) || band_key(
            es.last(),
            vertical,
        ) != k {
            if band_size(prev, vertical, k) != 0 {
                let j = choose|j: int|
                    0 <= j < prev.len() && band_key(prev[j], vertical) == k && band_extent(
                        #[trigger] prev[j],
                        vertical,
                    ) == band_size(prev, vertical, k);
                assert(es[j] == prev[j]);
            }
        } else {
            assert(es[es.len() - 1] == es.last());
        }
    }
}

/// `es2` holds the entries of `es1` rearranged: entry `i` of `es1` is entry
/// `pi(i)` of `es2`, and entry `j` of `es2` is entry `sigma(j)` of `es1`.
pub open spec fn rearranges(
    es1: Seq<FreeformEntry>,
    es2: Seq<FreeformEntry>,
    pi: spec_fn(int) -> int,
    sigma: spec_fn(int) -> int,
) -> bool {
    &&& es1.len() == es2.len()
    &&& forall|i: int| 0 <= i < es1.len() ==> 0 <= #[trigger] pi(i) < es2.len() && es2[pi(i)] == es1[i]
    &&& forall|j: int|
        0 <= j < es2.len() ==> 0 <= #[trigger] sigma(j) < es1.len() && es1[sigma(j)] == es2[j]
}

proof fn lemma_band_size_rearranged(
    es1: Seq<FreeformEntry>,
    es2: Seq<FreeformEntry>,
    pi: spec_fn(int) -> int,
    sigma: spec_fn(int) -> int,
    vertical: bool,
    k: int,
)
    requires
        rearranges(es1, es2, pi, sigma),
    ensures
        band_size(es1, vertical, k) == band_size(es2, vertical, k),
{
    lemma_band_size_witness(es1, vertical, k);
    lemma_band_size_witness(es2, vertical, k);
    if band_size(es1, vertical, k) != 0 {
        let j = choose|j: int|
            0 <= j < es1.len() && band_key(es1[j], vertical) == k && band_extent(
                #[trigger] es1[j],
                vertical,
            ) == band_size(es1, vertical, k);
        lemma_band_size_covers(es2, vertical, pi(j));
    }
    if band_size(es2, vertical, k) != 0 {
        let j = choose|j: int|
            0 <= j < es2.len() && band_key(es2[j], vertical) == k && band_extent(
                #[trigger] es2[j],
                vertical,
            ) == band_size(es2, vertical, k);
        lemma_band_size_covers(es1, vertical, sigma(j));
    }
}

proof fn lemma_band_offset_rearranged(
    es1: Seq<FreeformEntry>,
    es2: Seq<FreeformEntry>,
    pi: spec_fn(int) -> int,
    sigma: spec_fn(int) -> int,
    vertical: bool,
    k: nat,
)
    requires
        rearranges(es1, es2, pi, sigma),
    ensures
        band_offset(es1, vertical, k) == band_offset(es2, vertical, k),
    decreases k,
{
    if k > 0 {
        lemma_band_offset_rearranged(es1, es2, pi, sigma, vertical, (k - 1) as nat);
        lemma_band_size_rearranged(es1, es2, pi, sigma, vertical, k - 1);
    }
}

/// The layout does not depend on the order displays were placed in: placing the
/// same displays in another order gives the same canvas, and every display the
/// same placement.
pub proof fn lemma_freeform_order_independent(
    es1: Seq<FreeformEntry>,
    es2: Seq<FreeformEntry>,
    pi: spec_fn(int) -> int,
    sigma: spec_fn(int) -> int,
)
    requires
        rearranges(es1, es2, pi, sigma),
    ensures
        band_total(es1, false) == band_total(es2, false),
        band_total(es1, true) == band_total(es2, true),
        forall|i: int|
            0 <= i < es1.len() ==> placement_of(es2, es2[pi(i)]) == placement_of(
                es1,
                #[trigger] es1[i],
            ),
{
    lemma_band_offset_rearranged(es1, es2, pi, sigma, false, 0x1_0000_0000);
    lemma_band_offset_rearranged(es1, es2, pi, sigma, true, 0x1_0000_0000);
    assert forall|i: int| 0 <= i < es1.len() implies placement_of(es2, es2[pi(i)]) == placement_of(
        es1,
        #[trigger] es1[i],
    ) by {
        lemma_band_offset_rearranged(es1, es2, pi, sigma, false, es1[i].col as nat);
        lemma_band_offset_rearranged(es1, es2, pi, sigma, true, es1[i].row as nat);
    }
}

/// Placing one more display adds one placement: that display, its rotation,
/// and its tile size for that rotation.
pub proof fn lemma_place_adds_placement(es: Seq<FreeformEntry>, e: FreeformEntry)
    ensures
        es.push(e).len() == es.len() + 1,
        placement_of(es.push(e), es.push(e)[es.len() as int]).display == e.display,
        placement_of(es.push(e), es.push(e)[es.len() as int]).rotation == e.rotation,
        (
            placement_of(es.push(e), es.push(e)[es.len() as int]).canvas_w,
            placement_of(es.push(e), es.push(e)[es.len() as int]).canvas_h,
        ) == e.rotation.spec_canvas_dims(e.display.width, e.display.height),
{
}

impl FreeformLayout {
    /// Total virtual canvas size.
    pub fn canvas_size(&self) -> (r: (u32, u32))
        ensures
            r == (self@.0, self@.1),
    {
        (self.canvas_w, self.canvas_h)
    }

    /// The individual tile placements.
    pub fn placements(&self) -> (r: &[Placement])
        ensures
            r@ == self@.2,
    {
        self.placements.as_slice()
    }
}

impl Layout for FreeformLayout {
    fn canvas_size(&self) -> (r: (u32, u32))
        ensures
            r == (self@.0, self@.1),
    {
        (self.canvas_w, self.canvas_h)
    }

    fn placements(&self) -> (r: &[Placement])
        ensures
            r@ == self@.2,
    {
        self.placements.as_slice()
    }
}

} // verus!

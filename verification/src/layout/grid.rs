//! Regular grid layouts: an image split into COLS x ROWS equal tiles.
use vstd::prelude::*;
use crate::discovery::DisplayInfo;
use crate::error::PaintressError;
use crate::image::{Rotation, lemma_split_index};
use crate::text::{decimal, decimal_string};
use super::{Layout, Placement, tile_inside};

verus! {

/// Grid cell override: a specific display and rotation for one cell.
#[derive(Debug)]
pub struct CellOverride {
    pub col: u32,
    pub row: u32,
    pub display: DisplayInfo,
    pub rotation: Rotation,
}

impl Clone for CellOverride {
    fn clone(&self) -> (r: Self)
        ensures
            r == *self,
    {
        CellOverride {
            col: self.col,
            row: self.row,
            display: self.display.clone(),
            rotation: self.rotation,
        }
    }
}

/// What a grid builder has been told so far.
pub struct GridPlan {
    pub cols: u32,
    pub rows: u32,
    /// Displays to fill the cells without an override, in row-major order.
    pub auto_displays: Option<Seq<DisplayInfo>>,
    /// Per-cell overrides, in the order given.
    pub overrides: Seq<CellOverride>,
    /// Rotation of auto-filled cells.
    pub default_rotation: Rotation,
}

/// Row-major index of an override's cell.
pub open spec fn cell_index(o: CellOverride, cols: u32) -> int {
    o.row * cols + o.col
}

/// The display and rotation the last override for cell `k` gives it, if any.
pub open spec fn override_at(ovs: Seq<CellOverride>, cols: u32, k: int) -> Option<
    (DisplayInfo, Rotation),
>
    decreases ovs.len(),
{
    if ovs.len() == 0 {
        None
    } else if cell_index(ovs.last(), cols) == k {
        Some((ovs.last().display, ovs.last().rotation))
    } else {
        override_at(ovs.drop_last(), cols, k)
    }
}

impl GridPlan {
    /// Number of cells.
    pub open spec fn needed(self) -> nat {
        self.cols as nat * self.rows as nat
    }

    /// Number of cells before cell `k` that no override claims.
    pub open spec fn free_before(self, k: nat) -> nat
        decreases k,
    {
        if k == 0 {
            0
        } else if override_at(self.overrides, self.cols, k - 1) is None {
            self.free_before((k - 1) as nat) + 1
        } else {
            self.free_before((k - 1) as nat)
        }
    }

    /// What cell `k` finally holds: its override, else the next unused
    /// auto-assigned display with the default rotation, else nothing.
    pub open spec fn cell(self, k: int) -> Option<(DisplayInfo, Rotation)> {
        match override_at(self.overrides, self.cols, k) {
            Some(c) => Some(c),
            None => match self.auto_displays {
                Some(a) => Some((a[self.free_before(k as nat) as int], self.default_rotation)),
                None => None,
            },
        }
    }

    /// Too few auto-assigned displays for the cells.
    pub open spec fn lacks_displays(self) -> bool {
        self.auto_displays matches Some(a) && a.len() < self.needed()
    }

    /// Without auto-assigned displays, some cell has no override.
    pub open spec fn has_unassigned(self) -> bool {
        self.auto_displays is None && exists|k: int|
            0 <= k < self.needed() && override_at(self.overrides, self.cols, k) is None
    }

    /// Whether building succeeds.
    pub open spec fn builds(self) -> bool {
        !self.lacks_displays() && !self.has_unassigned()
    }

    /// Tile size of every grid cell: the canvas size of the first cell's display.
    pub open spec fn tile(self) -> (u32, u32) {
        match self.cell(0) {
            Some((d, r)) => r.spec_canvas_dims(d.width, d.height),
            None => (0, 0),
        }
    }

    /// Top-left corner of cell `i` on the canvas.
    pub open spec fn origin(self, i: int) -> (nat, nat) {
        (
            ((i % (self.cols as int)) * self.tile().0) as nat,
            ((i / (self.cols as int)) * self.tile().1) as nat,
        )
    }

    /// The placement of cell `i`.
    pub open spec fn placement(self, i: int) -> Placement {
        let (d, r) = self.cell(i).unwrap();
        Placement {
            display: d,
            x: self.origin(i).0 as u32,
            y: self.origin(i).1 as u32,
            canvas_w: r.spec_canvas_dims(d.width, d.height).0,
            canvas_h: r.spec_canvas_dims(d.width, d.height).1,
            rotation: r,
        }
    }

    /// The inputs a grid can be built from: a non-empty grid whose cell count
    /// fits 32 bits, overrides inside the grid, and (when the grid builds) a
    /// canvas whose size fits 32 bits.
    pub open spec fn acceptable(self) -> bool {
        &&& self.cols > 0
        &&& self.rows > 0
        &&& self.needed() <= u32::MAX
        &&& forall|j: int|
            0 <= j < self.overrides.len() ==> cell_index(#[trigger] self.overrides[j], self.cols)
                < self.needed()
        &&& self.builds() ==> self.tile().0 * self.cols <= u32::MAX && self.tile().1 * self.rows
            <= u32::MAX
    }
}

/// "COLSxROWS", the name of a grid.
pub open spec fn grid_name(cols: u32, rows: u32) -> Seq<char> {
    decimal(cols as nat) + "x"@ + decimal(rows as nat)
}

/// The message for cell `k` of a grid `cols` wide having no display.
pub open spec fn unassigned_message(k: nat, cols: u32) -> Seq<char> {
    "grid cell ("@ + decimal(k % (cols as nat)) + ","@ + decimal(k / (cols as nat))
        + ") has no display assigned"@
}

/// A regular grid layout builder that splits an image into COLS x ROWS tiles.
pub struct GridBuilder {
    cols: u32,
    rows: u32,
    auto_displays: Option<Vec<DisplayInfo>>,
    overrides: Vec<CellOverride>,
    default_rotation: Rotation,
}

impl View for GridBuilder {
    type V = GridPlan;

    closed spec fn view(&self) -> GridPlan {
        GridPlan {
            cols: self.cols,
            rows: self.rows,
            auto_displays: match self.auto_displays {
                Some(v) => Some(v@),
                None => None,
            },
            overrides: self.overrides@,
            default_rotation: self.default_rotation,
        }
    }
}

/// A finished grid layout.
pub struct GridLayout {
    canvas_w: u32,
    canvas_h: u32,
    placements: Vec<Placement>,
}

impl View for GridLayout {
    /// Canvas width, canvas height and the placements.
    type V = (u32, u32, Seq<Placement>);

    closed spec fn view(&self) -> (u32, u32, Seq<Placement>) {
        (self.canvas_w, self.canvas_h, self.placements@)
    }
}

fn clone_displays(displays: &[DisplayInfo]) -> (v: Vec<DisplayInfo>)
    ensures
        v@ == displays@,
{
    let mut v: Vec<DisplayInfo> = Vec::new();
    let mut i: usize = 0;
    while i < displays.len()
        invariant
            i <= displays@.len(),
            v@ == displays@.subrange(0, i as int),
        decreases displays@.len() - i,
    {
        v.push(displays[i].clone());
        i += 1;
    }
    v
}

proof fn lemma_free_before_bound(plan: GridPlan, k: nat)
    ensures
        plan.free_before(k) <= k,
    decreases k,
{
    if k > 0 {
        lemma_free_before_bound(plan, (k - 1) as nat);
    }
}

proof fn lemma_mul_le(a: int, b: int, c: int)
    requires
        0 <= a <= b,
        0 <= c,
    ensures
        a * c <= b * c,
{
    assert(a * c <= b * c) by (nonlinear_arith)
        requires
            0 <= a <= b,
            0 <= c,
    ;
}

impl GridBuilder {
    /// A builder for a `cols` by `rows` grid with no displays yet.
    pub fn new(cols: u32, rows: u32) -> (b: Self)
        ensures
            b@ == (GridPlan {
                cols,
                rows,
                auto_displays: None,
                overrides: Seq::empty(),
                default_rotation: Rotation::Identity,
            }),
    {
        GridBuilder {
            cols,
            rows,
            auto_displays: None,
            overrides: Vec::new(),
            default_rotation: Rotation::Identity,
        }
    }

    /// Auto-assign displays in row-major order.
    pub fn displays(self, displays: &[DisplayInfo]) -> (b: Self)
        ensures
            b@ == (GridPlan { auto_displays: Some(displays@), ..self@ }),
    {
        GridBuilder { auto_displays: Some(clone_displays(displays)), ..self }
    }

    /// Set the default rotation for all cells (overridden by per-cell settings).
    pub fn rotation(self, rotation: Rotation) -> (b: Self)
        ensures
            b@ == (GridPlan { default_rotation: rotation, ..self@ }),
    {
        GridBuilder { default_rotation: rotation, ..self }
    }

    /// Assign a specific display and rotation to a grid cell.
    pub fn cell(self, col: u32, row: u32, display: &DisplayInfo, rotation: Rotation) -> (b: Self)
        ensures
            b@ == (GridPlan {
                overrides: self@.overrides.push(
                    CellOverride { col, row, display: *display, rotation },
                ),
                ..self@
            }),
    {
        let mut overrides = self.overrides;
        overrides.push(CellOverride { col, row, display: display.clone(), rotation });
        GridBuilder { overrides, ..self }
    }
}

/// The first empty cell, if any.
fn first_empty(cells: &Vec<Option<(DisplayInfo, Rotation)>>) -> (r: Option<usize>)
    ensures
        r matches Some(k) ==> k < cells@.len() && cells@[k as int] is None && forall|c: int|
            0 <= c < k ==> cells@[c] is Some,
        r is None ==> forall|c: int| 0 <= c < cells@.len() ==> cells@[c] is Some,
{
    let mut k: usize = 0;
    while k < cells.len()
        invariant
            k <= cells@.len(),
            forall|c: int| 0 <= c < k ==> cells@[c] is Some,
        decreases cells@.len() - k,
    {
        if cells[k].is_none() {
            return Some(k);
        }
        k += 1;
    }
    None
}

impl GridBuilder {
    /// One cell per grid position, each holding what its overrides assign.
    fn override_cells(&self) -> (cells: Vec<Option<(DisplayInfo, Rotation)>>)
        requires
            self@.acceptable(),
        ensures
            cells@.len() == self@.needed(),
            forall|k: int|
                0 <= k < self@.needed() ==> cells@[k] == override_at(
                    self@.overrides,
                    self@.cols,
                    k,
                ),
    {
        let ghost plan = self@;
        let cols = self.cols;
        let needed = (cols * self.rows) as usize;
        let mut cells: Vec<Option<(DisplayInfo, Rotation)>> = Vec::new();
        while cells.len() < needed
            invariant
                cells@.len() <= needed,
                forall|k: int| 0 <= k < cells@.len() ==> cells@[k] is None,
            decreases needed - cells@.len(),
        {
            cells.push(None);
        }
        assert forall|k: int| 0 <= k < needed implies cells@[k] == override_at(
            plan.overrides.take(0),
            cols,
            k,
        ) by {}
        let mut j: usize = 0;
        while j < self.overrides.len()
            invariant
                plan == self@,
                plan.acceptable(),
                cols == plan.cols,
                needed == plan.needed(),
                cells@.len() == needed,
                j <= plan.overrides.len(),
                forall|k: int|
                    0 <= k < needed ==> cells@[k] == override_at(
                        plan.overrides.take(j as int),
                        cols,
                        k,
                    ),
            decreases plan.overrides.len() - j,
        {
            let ov = &self.overrides[j];
            assert(cell_index(plan.overrides[j as int], cols) < needed);
            let idx = (ov.row * cols + ov.col) as usize;
            cells.set(idx, Some((ov.display.clone(), ov.rotation)));
            assert(plan.overrides.take(j + 1).drop_last() =~= plan.overrides.take(j as int));
            j += 1;
        }
        assert(plan.overrides.take(j as int) =~= plan.overrides);
        cells
    }

    /// Fill the cells no override claims from `auto`, in row-major order.
    fn fill_cells(
        &self,
        cells: &mut Vec<Option<(DisplayInfo, Rotation)>>,
        auto: &Vec<DisplayInfo>,
    )
        requires
            self@.acceptable(),
            self@.auto_displays == Some(auto@),
            auto@.len() >= self@.needed(),
            old(cells)@.len() == self@.needed(),
            forall|k: int|
                0 <= k < self@.needed() ==> old(cells)@[k] == override_at(
                    self@.overrides,
                    self@.cols,
                    k,
                ),
        ensures
            final(cells)@.len() == self@.needed(),
            forall|k: int| 0 <= k < self@.needed() ==> final(cells)@[k] == self@.cell(k),
    {
        let ghost plan = self@;
        let cols = self.cols;
        let needed = cells.len();
        let mut used: usize = 0;
        let mut k: usize = 0;
        while k < needed
            invariant
                plan == self@,
                plan.auto_displays == Some(auto@),
                cols == plan.cols,
                needed == plan.needed(),
                auto@.len() >= needed,
                cells@.len() == needed,
                k <= needed,
                used == plan.free_before(k as nat),
                forall|c: int| 0 <= c < k ==> cells@[c] == plan.cell(c),
                forall|c: int|
                    k <= c < needed ==> cells@[c] == override_at(plan.overrides, cols, c),
            decreases needed - k,
        {
            if cells[k].is_none() {
                proof {
                    lemma_free_before_bound(plan, k as nat);
                }
                cells.set(k, Some((auto[used].clone(), self.default_rotation)));
                used += 1;
            }
            k += 1;
        }
    }

    /// The placements of the filled cells.
    fn grid_placements(&self, cells: &Vec<Option<(DisplayInfo, Rotation)>>, tile_w: u32, tile_h: u32)
        -> (placements: Vec<Placement>)
        requires
            self@.acceptable(),
            self@.builds(),
            (tile_w, tile_h) == self@.tile(),
            cells@.len() == self@.needed(),
            forall|c: int| 0 <= c < self@.needed() ==> cells@[c] == self@.cell(c),
            forall|c: int| 0 <= c < self@.needed() ==> (#[trigger] cells@[c]) is Some,
        ensures
            placements@.len() == self@.needed(),
            forall|c: int| 0 <= c < self@.needed() ==> #[trigger] placements@[c] == self@.placement(c),
    {
        let ghost plan = self@;
        let cols = self.cols;
        let rows = self.rows;
        let needed = cells.len();
        let mut placements: Vec<Placement> = Vec::new();
        let mut i: usize = 0;
        while i < needed
            invariant
                plan == self@,
                plan.acceptable(),
                plan.builds(),
                cols == plan.cols,
                rows == plan.rows,
                needed == plan.needed(),
                (tile_w, tile_h) == plan.tile(),
                cells@.len() == needed,
                forall|c: int| 0 <= c < needed ==> cells@[c] == plan.cell(c),
                forall|c: int| 0 <= c < needed ==> (#[trigger] cells@[c]) is Some,
                i <= needed,
                placements@.len() == i,
                forall|c: int| 0 <= c < i ==> #[trigger] placements@[c] == plan.placement(c),
            decreases needed - i,
        {
            proof {
                lemma_split_index(i as int, cols as int, rows as int);
                lemma_mul_le(i as int % cols as int, cols as int, tile_w as int);
                lemma_mul_le(i as int / cols as int, rows as int, tile_h as int);
                assert(cols * tile_w == tile_w * cols) by (nonlinear_arith);
                assert(rows * tile_h == tile_h * rows) by (nonlinear_arith);
            }
            let col = i as u32 % cols;
            let row = i as u32 / cols;
            let cell = match &cells[i] {
                Some(c) => c,
                None => {
                    assert(false);
                    return placements;
                },
            };
            let dims = cell.1.canvas_dims(cell.0.width, cell.0.height);
            placements.push(
                Placement {
                    display: cell.0.clone(),
                    x: col * tile_w,
                    y: row * tile_h,
                    canvas_w: dims.0,
                    canvas_h: dims.1,
                    rotation: cell.1,
                },
            );
            i += 1;
        }
        placements
    }

    /// Lay the grid out. Overrides take priority; with auto-assigned displays the
    /// remaining cells are filled from them in row-major order. All tiles take the
    /// size of the first cell's display (grids assume uniform displays).
    pub fn build(self) -> (r: Result<GridLayout, PaintressError>)
        requires
            self@.acceptable(),
        ensures
            self@.lacks_displays() ==> (r matches Err(
                PaintressError::NotEnoughDisplays { layout, needed, available },
            ) && layout@ == grid_name(self@.cols, self@.rows) && needed == self@.needed()
                && available == self@.auto_displays.unwrap().len()),
            self@.has_unassigned() ==> (r matches Err(PaintressError::Generic(msg)) && exists|k: int|
                0 <= k < self@.needed() && override_at(self@.overrides, self@.cols, k) is None
                    && (forall|k2: int|
                    0 <= k2 < k ==> override_at(self@.overrides, self@.cols, k2) is Some)
                    && msg@ == unassigned_message(k as nat, self@.cols)),
            self@.builds() ==> (r matches Ok(layout) && layout@.0 == self@.tile().0 * self@.cols
                && layout@.1 == self@.tile().1 * self@.rows && layout@.2.len() == self@.needed()
                && forall|i: int|
                0 <= i < self@.needed() ==> #[trigger] layout@.2[i] == self@.placement(i)),
    {
        let ghost plan = self@;
        let cols = self.cols;
        let rows = self.rows;
        let mut cells = self.override_cells();
        let needed = cells.len();
        match &self.auto_displays {
            Some(auto) => {
                if auto.len() < needed {
                    let mut layout = decimal_string(cols as u64);
                    layout.append("x");
                    layout.append(decimal_string(rows as u64).as_str());
                    return Err(
                        PaintressError::NotEnoughDisplays { layout, needed, available: auto.len() },
                    );
                }
                self.fill_cells(&mut cells, auto);
                assert(!plan.lacks_displays());
                assert(!plan.has_unassigned());
            },
            None => {
                if let Some(k) = first_empty(&cells) {
                    proof {
                        lemma_split_index(k as int, cols as int, rows as int);
                        assert(override_at(plan.overrides, cols, k as int) is None);
                        assert(plan.has_unassigned());
                    }
                    let col = k as u32 % cols;
                    let row = k as u32 / cols;
                    assert(col as nat == k as nat % (cols as nat));
                    assert(row as nat == k as nat / (cols as nat));
                    let mut msg = String::from_str("grid cell (");
                    msg.append(decimal_string(col as u64).as_str());
                    msg.append(",");
                    msg.append(decimal_string(row as u64).as_str());
                    msg.append(") has no display assigned");
                    assert(msg@ == unassigned_message(k as nat, cols));
                    assert forall|k2: int| 0 <= k2 < k implies override_at(
                        plan.overrides,
                        cols,
                        k2,
                    ) is Some by {
                        assert(cells@[k2] is Some);
                    }
                    return Err(PaintressError::Generic(msg));
                }
                assert(forall|c: int| 0 <= c < needed ==> (#[trigger] cells@[c]) is Some);
                assert forall|c: int| 0 <= c < needed implies override_at(
                    plan.overrides,
                    cols,
                    c,
                ) is Some by {
                    assert(cells@[c] is Some);
                }
                assert(!plan.has_unassigned());
            },
        }
        assert(plan.builds());
        assert(forall|c: int| 0 <= c < needed ==> cells@[c] == plan.cell(c));
        assert forall|c: int| 0 <= c < needed implies (#[trigger] cells@[c]) is Some by {
            assert(cells@[c] == plan.cell(c));
        }
        assert(needed > 0) by (nonlinear_arith)
            requires
                needed == cols * rows,
                cols > 0,
                rows > 0,
        ;
        let first = match &cells[0] {
            Some(c) => c,
            None => {
                assert(false);
                return Err(PaintressError::NoDisplaysFound);
            },
        };
        let (tile_w, tile_h) = first.1.canvas_dims(first.0.width, first.0.height);
        assert((tile_w, tile_h) == plan.tile());
        let canvas_w = tile_w * cols;
        let canvas_h = tile_h * rows;
        let placements = self.grid_placements(&cells, tile_w, tile_h);
        Ok(GridLayout { canvas_w, canvas_h, placements })
    }
}

/// The cells of a grid partition its canvas: each tile-sized cell lies inside the
/// canvas, and two different cells never overlap.
pub proof fn lemma_grid_cells_partition_canvas(plan: GridPlan, i: int, j: int)
    requires
        plan.cols > 0,
        plan.rows > 0,
        0 <= i < plan.needed(),
        0 <= j < plan.needed(),
    ensures
        plan.origin(i).0 + plan.tile().0 <= plan.tile().0 * plan.cols,
        plan.origin(i).1 + plan.tile().1 <= plan.tile().1 * plan.rows,
        i != j ==> (plan.origin(i).0 + plan.tile().0 <= plan.origin(j).0 || plan.origin(j).0
            + plan.tile().0 <= plan.origin(i).0 || plan.origin(i).1 + plan.tile().1
            <= plan.origin(j).1 || plan.origin(j).1 + plan.tile().1 <= plan.origin(i).1),
{
    let cols = plan.cols as int;
    let rows = plan.rows as int;
    let tw = plan.tile().0 as int;
    let th = plan.tile().1 as int;
    lemma_split_index(i, cols, rows);
    lemma_split_index(j, cols, rows);
    let (ci, ri, cj, rj) = (i % cols, i / cols, j % cols, j / cols);
    lemma_mul_le(ci + 1, cols, tw);
    lemma_mul_le(ri + 1, rows, th);
    assert((ci + 1) * tw == ci * tw + tw) by (nonlinear_arith);
    assert((ri + 1) * th == ri * th + th) by (nonlinear_arith);
    assert(cols * tw == tw * cols) by (nonlinear_arith);
    assert(rows * th == th * rows) by (nonlinear_arith);
    assert(0 <= ci * tw && 0 <= ri * th && 0 <= cj * tw && 0 <= rj * th) by (nonlinear_arith)
        requires
            0 <= ci,
            0 <= ri,
            0 <= cj,
            0 <= rj,
            0 <= tw,
            0 <= th,
    ;
    if i != j {
        if ci < cj {
            lemma_mul_le(ci + 1, cj, tw);
        } else if cj < ci {
            lemma_mul_le(cj + 1, ci, tw);
            assert((cj + 1) * tw == cj * tw + tw) by (nonlinear_arith);
        } else if ri < rj {
            lemma_mul_le(ri + 1, rj, th);
        } else {
            assert(rj < ri);
            lemma_mul_le(rj + 1, ri, th);
            assert((rj + 1) * th == rj * th + th) by (nonlinear_arith);
        }
    }
}

/// Every grid tile has its display's size turned by its rotation: the native
/// width and height for no turn or a half turn, the sides swapped for a quarter
/// turn. The first cell's tile is the grid's tile size, and a tile of that size
/// (every tile, when the displays are uniform) lies inside the canvas at its
/// cell's corner.
pub proof fn lemma_grid_tile_sizes(plan: GridPlan, i: int)
    requires
        plan.acceptable(),
        plan.builds(),
        0 <= i < plan.needed(),
    ensures
        ({
            let p = plan.placement(i);
            &&& (p.canvas_w, p.canvas_h) == p.rotation.spec_canvas_dims(
                p.display.width,
                p.display.height,
            )
            &&& (p.rotation == Rotation::Identity || p.rotation == Rotation::Flip180) ==> (
            p.canvas_w == p.display.width && p.canvas_h == p.display.height)
            &&& (p.rotation == Rotation::Cw90 || p.rotation == Rotation::Ccw90) ==> (p.canvas_w
                == p.display.height && p.canvas_h == p.display.width)
            &&& p.x == (i % (plan.cols as int)) * plan.tile().0
            &&& p.y == (i / (plan.cols as int)) * plan.tile().1
            &&& (p.canvas_w, p.canvas_h) == plan.tile() ==> tile_inside(
                p,
                (plan.tile().0 * plan.cols) as nat,
                (plan.tile().1 * plan.rows) as nat,
            )
        }),
        (plan.placement(0).canvas_w, plan.placement(0).canvas_h) == plan.tile(),
{
    lemma_grid_cells_partition_canvas(plan, i, i);
    lemma_split_index(i, plan.cols as int, plan.rows as int);
    let cols = plan.cols as int;
    let tw = plan.tile().0 as int;
    let th = plan.tile().1 as int;
    assert(0 <= (i % cols) * tw && 0 <= (i / cols) * th) by (nonlinear_arith)
        requires
            0 <= i % cols,
            0 <= i / cols,
            0 <= tw,
            0 <= th,
    ;
    assert(plan.tile().0 * plan.cols <= u32::MAX);
    assert(plan.tile().1 * plan.rows <= u32::MAX);
}

/// Of two `displays` calls, the last one wins: the plan is the same as after
/// the last call alone.
pub proof fn lemma_last_displays_win(plan: GridPlan, xs: Seq<DisplayInfo>, ys: Seq<DisplayInfo>)
    ensures
        (GridPlan { auto_displays: Some(ys), ..GridPlan { auto_displays: Some(xs), ..plan } })
            == (GridPlan { auto_displays: Some(ys), ..plan }),
{
}

impl GridLayout {
    /// Total virtual canvas size.
    pub fn canvas_size(&self) -> (r: (u32, u32))
        ensures
            r == (self@.0, self@.1),
    {
        (self.canvas_w, self.canvas_h)
    }

    /// The individual tile placements.
    pub fn placements(&self) -> (r: &[Placement])
        ensures
            r@ == self@.2,
    {
        self.placements.as_slice()
    }
}

impl Layout for GridLayout {
    fn canvas_size(&self) -> (r: (u32, u32))
        ensures
            r == (self@.0, self@.1),
    {
        (self.canvas_w, self.canvas_h)
    }

    fn placements(&self) -> (r: &[Placement])
        ensures
            r@ == self@.2,
    {
        self.placements.as_slice()
    }
}

} // verus!

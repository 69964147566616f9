//! One global grid out of all submaps.
//!
//! Each submap's grid is laid over the global one: every global cell under it looks
//! up the local cell that its centre falls in, and adds what that says. Looking up
//! from the global side leaves no holes; pushing local cells out would, since a
//! turned lattice does not meet every cell of another.

use vstd::prelude::*;
use crate::grid::{LogRange, OccupancyGrid};
use crate::ieee::{Single, SINGLE_INFINITY, SINGLE_SIGN};

verus! {

#[derive(Debug, Clone, Copy, PartialEq, Eq, Structural)]
pub struct GlobalRenderConfig {
    /// Size of a global cell, in metres.
    pub cell_m: Single,
    /// Padding around everything, in metres.
    pub margin_m: Single,
    /// Only local cells more certain than this, either way, are laid over.
    pub min_hit_threshold_fp: i16,
}

/// Five centimetres, half a metre, and log-odds of a wall hit twice.
pub open spec fn stock_config() -> GlobalRenderConfig {
    GlobalRenderConfig {
        cell_m: Single { bits: 0x3D4C_CCCD },
        margin_m: Single { bits: 0x3F00_0000 },
        min_hit_threshold_fp: 150,
    }
}

impl Default for GlobalRenderConfig {
    fn default() -> (cfg: Self)
        ensures
            cfg == stock_config(),
    {
        GlobalRenderConfig {
            cell_m: Single { bits: 0x3D4C_CCCD },
            margin_m: Single { bits: 0x3F00_0000 },
            min_hit_threshold_fp: 150,
        }
    }
}

/// A rectangle around some points.
#[derive(Debug, Clone, Copy, PartialEq, Eq, Structural)]
pub struct Bounds {
    pub min_x: Single,
    pub max_x: Single,
    pub min_y: Single,
    pub max_y: Single,
}

impl Bounds {
    /// The rectangle around nothing.
    pub open spec fn nothing() -> Bounds {
        Bounds {
            min_x: Single { bits: SINGLE_INFINITY },
            max_x: Single { bits: 0xFF80_0000 },
            min_y: Single { bits: SINGLE_INFINITY },
            max_y: Single { bits: 0xFF80_0000 },
        }
    }

    /// The rectangle grown to hold one more point.
    pub open spec fn grown(self, x: Single, y: Single) -> Bounds {
        Bounds {
            min_x: if x.below(self.min_x) {
                x
            } else {
                self.min_x
            },
            max_x: if self.max_x.below(x) {
                x
            } else {
                self.max_x
            },
            min_y: if y.below(self.min_y) {
                y
            } else {
                self.min_y
            },
            max_y: if self.max_y.below(y) {
                y
            } else {
                self.max_y
            },
        }
    }

    /// The point lies in the rectangle.
    pub open spec fn holds(self, x: Single, y: Single) -> bool {
        self.min_x.at_most(x) && x.at_most(self.max_x) && self.min_y.at_most(y) && y.at_most(
            self.max_y,
        )
    }

    pub fn empty() -> (b: Bounds)
        ensures
            b == Bounds::nothing(),
    {
        Bounds {
            min_x: Single { bits: SINGLE_INFINITY },
            max_x: Single { bits: SINGLE_INFINITY + SINGLE_SIGN },
            min_y: Single { bits: SINGLE_INFINITY },
            max_y: Single { bits: SINGLE_INFINITY + SINGLE_SIGN },
        }
    }

    pub fn cover(self, x: Single, y: Single) -> (b: Bounds)
        ensures
            b == self.grown(x, y),
    {
        Bounds {
            min_x: if x.lt(self.min_x) {
                x
            } else {
                self.min_x
            },
            max_x: if self.max_x.lt(x) {
                x
            } else {
                self.max_x
            },
            min_y: if y.lt(self.min_y) {
                y
            } else {
                self.min_y
            },
            max_y: if self.max_y.lt(y) {
                y
            } else {
                self.max_y
            },
        }
    }
}

/// The rectangle around some points.
pub open spec fn around(points: Seq<(Single, Single)>) -> Bounds
    decreases points.len(),
{
    if points.len() == 0 {
        Bounds::nothing()
    } else {
        around(points.drop_last()).grown(points.last().0, points.last().1)
    }
}

/// Every one of the points lies in the rectangle around them.
pub proof fn law_bounds_hold_every_corner(points: Seq<(Single, Single)>, k: int)
    requires
        0 <= k < points.len(),
        forall|i: int|
            0 <= i < points.len() ==> !(#[trigger] points[i]).0.nan() && !points[i].1.nan(),
    ensures
        around(points).holds(points[k].0, points[k].1),
    decreases points.len(),
{
    let fewer = points.drop_last();
    assert forall|i: int| 0 <= i < fewer.len() implies !(#[trigger] fewer[i]).0.nan()
        && !fewer[i].1.nan() by {
        assert(fewer[i] == points[i]);
    }
    if k < fewer.len() {
        law_bounds_hold_every_corner(fewer, k);
        assert(fewer[k] == points[k]);
    } else if fewer.len() > 0 {
        law_bounds_hold_every_corner(fewer, 0);
    }
}

/// The global cells to look at for a submap: rows and columns, ends included.
#[derive(Debug, Clone, Copy, PartialEq, Eq, Structural)]
pub struct Footprint {
    pub i_lo: usize,
    pub i_hi: usize,
    pub j_lo: usize,
    pub j_hi: usize,
}

/// One below, and not below the grid.
pub open spec fn low_end(at: int) -> int {
    if at < 1 {
        0
    } else {
        at - 1
    }
}

/// One above, and within a grid of `n`.
pub open spec fn high_end(at: int, n: int) -> int {
    if at + 1 < 0 {
        0
    } else if at + 1 > n - 1 {
        n - 1
    } else {
        at + 1
    }
}

/// The cells between two corners and one around them, as far as the grid goes.
pub open spec fn footprint(lo: (i32, i32), hi: (i32, i32), w: int, h: int) -> Footprint {
    Footprint {
        i_lo: low_end(lo.0 as int) as usize,
        i_hi: high_end(hi.0 as int, h) as usize,
        j_lo: low_end(lo.1 as int) as usize,
        j_hi: high_end(hi.1 as int, w) as usize,
    }
}

fn bounded(at: i32, n: usize) -> (k: usize)
    requires
        n > 0,
    ensures
        k == high_end(at as int, n as int),
{
    if at < 0 {
        0
    } else {
        let up: u64 = at as u64 + 1;
        if up > (n - 1) as u64 {
            n - 1
        } else {
            up as usize
        }
    }
}

/// The global cells to look at for a submap whose corners lie between the cells `lo`
/// and `hi`.
pub fn footprint_of(lo: (i32, i32), hi: (i32, i32), w: usize, h: usize) -> (fp: Footprint)
    requires
        w > 0,
        h > 0,
    ensures
        fp == footprint(lo, hi, w as int, h as int),
{
    Footprint {
        i_lo: if lo.0 < 1 {
            0
        } else {
            (lo.0 - 1) as usize
        },
        i_hi: bounded(hi.0, h),
        j_lo: if lo.1 < 1 {
            0
        } else {
            (lo.1 - 1) as usize
        },
        j_hi: bounded(hi.1, w),
    }
}

impl Footprint {
    pub open spec fn rows(self) -> int {
        if self.i_hi < self.i_lo {
            0
        } else {
            self.i_hi - self.i_lo + 1
        }
    }

    pub open spec fn cols(self) -> int {
        if self.j_hi < self.j_lo {
            0
        } else {
            self.j_hi - self.j_lo + 1
        }
    }

    pub open spec fn holds(self, i: int, j: int) -> bool {
        self.i_lo <= i <= self.i_hi && self.j_lo <= j <= self.j_hi
    }

    pub open spec fn fits(self, w: int, h: int) -> bool {
        self.i_hi < h && self.j_hi < w
    }
}

/// A submap over the global grid: the local cell that each global cell of its
/// footprint looks up, row by row, or `None` where it looks past the local grid.
pub struct Layer<'a> {
    pub grid: &'a OccupancyGrid,
    pub footprint: Footprint,
    pub samples: Vec<Option<(usize, usize)>>,
}

impl<'a> Layer<'a> {
    /// One sample per cell of the footprint, and each a cell of the local grid.
    pub open spec fn well_formed(&self, w: int, h: int) -> bool {
        &&& self.grid.well_formed()
        &&& self.footprint.fits(w, h)
        &&& self.samples@.len() == self.footprint.rows() * self.footprint.cols()
        &&& forall|k: int|
            0 <= k < self.samples@.len() ==> (#[trigger] self.samples@[k] matches Some(c)
                ==> c.0 < self.grid.h() && c.1 < self.grid.w())
    }

    /// What the global cell in row `i` and column `j` looks up.
    pub open spec fn sample(&self, i: int, j: int) -> Option<(usize, usize)> {
        self.samples@[(i - self.footprint.i_lo) * self.footprint.cols() + (j
            - self.footprint.j_lo)]
    }

    /// What the layer says about a global cell: nothing outside its footprint, off
    /// its grid, or where it is not sure enough.
    pub open spec fn says(&self, i: int, j: int, threshold: i16) -> Option<i16> {
        if !self.footprint.holds(i, j) {
            None
        } else {
            match self.sample(i, j) {
                Some(c) => {
                    let v = self.grid.at(c.0 as int, c.1 as int);
                    if v == 0 || magnitude(v) <= magnitude(threshold) {
                        None
                    } else {
                        Some(v)
                    }
                },
                None => None,
            }
        }
    }
}

pub open spec fn magnitude(v: i16) -> int {
    if v < 0 {
        -v
    } else {
        v as int
    }
}

fn unsigned(v: i16) -> (m: i32)
    ensures
        m == magnitude(v),
{
    let x: i32 = v as i32;
    if x < 0 {
        -x
    } else {
        x
    }
}

/// A cell's log-odds with the layer's say added.
pub open spec fn laid(layer: Layer, i: int, j: int, threshold: i16, range: LogRange, v: i16) -> i16 {
    match layer.says(i, j, threshold) {
        Some(x) => range.summed(v, x),
        None => v,
    }
}

/// The log-odds of a global cell under some layers.
pub open spec fn composed(
    layers: Seq<Layer>,
    i: int,
    j: int,
    threshold: i16,
    range: LogRange,
) -> i16
    decreases layers.len(),
{
    if layers.len() == 0 {
        0
    } else {
        laid(
            layers.last(),
            i,
            j,
            threshold,
            range,
            composed(layers.drop_last(), i, j, threshold, range),
        )
    }
}

/// Looks a cell up in a layer.
fn look_up(layer: &Layer, i: usize, j: usize, w: usize, h: usize, threshold: i16) -> (v: Option<i16>)
    requires
        layer.well_formed(w as int, h as int),
        layer.footprint.holds(i as int, j as int),
    ensures
        v == layer.says(i as int, j as int, threshold),
{
    let fp = layer.footprint;
    let cols: usize = fp.j_hi - fp.j_lo + 1;
    let a: usize = i - fp.i_lo;
    let b: usize = j - fp.j_lo;
    let n: usize = layer.samples.len();
    assert(a * cols + b < fp.rows() * cols) by (nonlinear_arith)
        requires
            a < fp.rows(),
            b < cols,
    ;
    assert(0 <= a * cols) by (nonlinear_arith);
    match layer.samples[a * cols + b] {
        Some(c) => {
            let v: i16 = layer.grid.log_at(c.0, c.1);
            if v == 0 || unsigned(v) <= unsigned(threshold) {
                None
            } else {
                Some(v)
            }
        },
        None => None,
    }
}

/// The grid holds the new value of every cell before row `i`, and of those of row `i`
/// before column `j`; and the old one of the others.
spec fn laid_up_to(
    before: OccupancyGrid,
    now: OccupancyGrid,
    layer: Layer,
    threshold: i16,
    range: LogRange,
    row: int,
    col: int,
) -> bool {
    &&& now.well_formed()
    &&& now.w() == before.w()
    &&& now.h() == before.h()
    &&& forall|i: int, j: int|
        0 <= i < now.h() && 0 <= j < now.w() ==> #[trigger] now.at(i, j) == {
            let v = before.at(i, j);
            if i < row || i == row && j < col {
                laid(layer, i, j, threshold, range, v)
            } else {
                v
            }
        }
}

/// Lays one layer's part of one row.
fn lay_row(grid: &mut OccupancyGrid, layer: &Layer, threshold: i16, range: LogRange, i: usize)
    requires
        old(grid).well_formed(),
        layer.well_formed(old(grid).w(), old(grid).h()),
        layer.footprint.i_lo <= i <= layer.footprint.i_hi,
        range.lo <= range.hi,
    ensures
        forall|before: OccupancyGrid| #[trigger]
            laid_up_to(before, *old(grid), *layer, threshold, range, i as int, 0) ==> laid_up_to(
                before,
                *final(grid),
                *layer,
                threshold,
                range,
                i + 1,
                0,
            ),
        final(grid).well_formed(),
        final(grid).w() == old(grid).w(),
        final(grid).h() == old(grid).h(),
{
    let fp = layer.footprint;
    let w: usize = grid.width();
    let h: usize = grid.height();
    let ghost start = *grid;
    let mut j: usize = fp.j_lo;
    while j <= fp.j_hi
        invariant
            start == *old(grid),
            w == start.w(),
            h == start.h(),
            grid.well_formed(),
            grid.w() == w,
            grid.h() == h,
            fp == layer.footprint,
            layer.well_formed(w as int, h as int),
            fp.i_lo <= i <= fp.i_hi,
            range.lo <= range.hi,
            fp.j_lo <= j,
            fp.j_lo <= fp.j_hi ==> j <= fp.j_hi + 1,
            forall|a: int, b: int|
                0 <= a < h && 0 <= b < w ==> #[trigger] grid.at(a, b) == {
                    let v = start.at(a, b);
                    if a == i && b < j {
                        laid(*layer, a, b, threshold, range, v)
                    } else {
                        v
                    }
                },
        decreases fp.j_hi + 1 - j,
    {
        let ghost was = *grid;
        let say = look_up(layer, i, j, w, h, threshold);
        match say {
            Some(v) => {
                grid.add_log_odds_at(i, j, v, range);
            },
            None => {},
        }
        proof {
            assert forall|a: int, b: int| 0 <= a < h && 0 <= b < w implies #[trigger] grid.at(
                a,
                b,
            ) == {
                let v = start.at(a, b);
                if a == i && b < j + 1 {
                    laid(*layer, a, b, threshold, range, v)
                } else {
                    v
                }
            } by {
                assert(was.at(a, b) == was.at(a, b));
            }
        }
        j += 1;
    }
    proof {
        assert forall|before: OccupancyGrid| #[trigger]
            laid_up_to(before, start, *layer, threshold, range, i as int, 0) implies laid_up_to(
            before,
            *grid,
            *layer,
            threshold,
            range,
            i + 1,
            0,
        ) by {
            assert forall|a: int, b: int| 0 <= a < h && 0 <= b < w implies #[trigger] grid.at(
                a,
                b,
            ) == {
                let v = before.at(a, b);
                if a < i + 1 {
                    laid(*layer, a, b, threshold, range, v)
                } else {
                    v
                }
            } by {
                assert(start.at(a, b) == start.at(a, b));
            }
        }
    }
}

/// Lays one layer over the grid.
fn lay(grid: &mut OccupancyGrid, layer: &Layer, threshold: i16, range: LogRange)
    requires
        old(grid).well_formed(),
        layer.well_formed(old(grid).w(), old(grid).h()),
        range.lo <= range.hi,
    ensures
        final(grid).well_formed(),
        final(grid).w() == old(grid).w(),
        final(grid).h() == old(grid).h(),
        forall|i: int, j: int|
            0 <= i < old(grid).h() && 0 <= j < old(grid).w() ==> #[trigger] final(grid).at(i, j)
                == laid(*layer, i, j, threshold, range, old(grid).at(i, j)),
{
    let fp = layer.footprint;
    let ghost start = *grid;
    let h: usize = grid.height();
    let mut i: usize = fp.i_lo;
    assert(laid_up_to(start, *grid, *layer, threshold, range, i as int, 0)) by {
        assert forall|a: int, b: int| 0 <= a < start.h() && 0 <= b < start.w() implies (if a < i
            || a == i && b < 0 {
            laid(*layer, a, b, threshold, range, start.at(a, b))
        } else {
            start.at(a, b)
        }) == #[trigger] start.at(a, b) by {}
    }
    while i <= fp.i_hi
        invariant
            fp == layer.footprint,
            h == start.h(),
            layer.well_formed(start.w(), start.h()),
            range.lo <= range.hi,
            fp.i_lo <= i,
            fp.i_lo <= fp.i_hi ==> i <= fp.i_hi + 1,
            laid_up_to(start, *grid, *layer, threshold, range, i as int, 0),
        decreases fp.i_hi + 1 - i,
    {
        lay_row(grid, layer, threshold, range, i);
        i += 1;
    }
}

/// The global grid of `w` by `h` cells under the given layers, or `None` when there are
/// none.
pub fn render_global(
    layers: &[Layer],
    w: usize,
    h: usize,
    cfg: &GlobalRenderConfig,
    range: LogRange,
) -> (grid: Option<OccupancyGrid>)
    requires
        w * h <= usize::MAX,
        range.lo <= range.hi,
        forall|k: int|
            0 <= k < layers@.len() ==> (#[trigger] layers@[k]).well_formed(w as int, h as int),
    ensures
        grid is None <==> layers@.len() == 0,
        grid matches Some(g) ==> {
            &&& g.well_formed()
            &&& g.w() == w
            &&& g.h() == h
            &&& forall|i: int, j: int|
                0 <= i < h && 0 <= j < w ==> #[trigger] g.at(i, j) == composed(
                    layers@,
                    i,
                    j,
                    cfg.min_hit_threshold_fp,
                    range,
                )
        },
{
    if layers.len() == 0 {
        return None;
    }
    let threshold: i16 = cfg.min_hit_threshold_fp;
    let mut grid = OccupancyGrid::blank(w, h);
    let mut k: usize = 0;
    while k < layers.len()
        invariant
            k <= layers@.len(),
            range.lo <= range.hi,
            forall|k: int|
                0 <= k < layers@.len() ==> (#[trigger] layers@[k]).well_formed(w as int, h as int),
            grid.well_formed(),
            grid.w() == w,
            grid.h() == h,
            forall|i: int, j: int|
                0 <= i < h && 0 <= j < w ==> #[trigger] grid.at(i, j) == composed(
                    layers@.take(k as int),
                    i,
                    j,
                    threshold,
                    range,
                ),
        decreases layers.len() - k,
    {
        assert(layers@.take(k + 1).drop_last() =~= layers@.take(k as int));
        assert(layers@.take(k + 1).last() == layers@[k as int]);
        let ghost was = grid;
        assert(layers@[k as int].well_formed(w as int, h as int));
        lay(&mut grid, &layers[k], threshold, range);
        assert forall|i: int, j: int| 0 <= i < h && 0 <= j < w implies #[trigger] grid.at(i, j)
            == composed(layers@.take(k + 1), i, j, threshold, range) by {
            assert(was.at(i, j) == was.at(i, j));
        }
        k += 1;
    }
    assert(layers@.take(k as int) =~= layers@);
    Some(grid)
}

/// A wall has no holes: wherever the one layer looks up a cell it is sure is a wall,
/// the rendered cell is one too.
pub proof fn law_walls_render_without_holes(
    layer: Layer,
    i: int,
    j: int,
    threshold: i16,
    range: LogRange,
)
    requires
        layer.footprint.holds(i, j),
        layer.sample(i, j) matches Some(c) && {
            let v = layer.grid.at(c.0 as int, c.1 as int);
            v > magnitude(threshold)
        },
        range.lo <= 0 < range.hi,
    ensures
        composed(seq![layer], i, j, threshold, range) > 0,
{
    assert(seq![layer].drop_last() =~= Seq::<Layer>::empty());
    assert(seq![layer].last() == layer);
    assert(composed(seq![layer].drop_last(), i, j, threshold, range) == 0);
}

/// Log-odds stay in the range they are kept in, however many layers there are.
pub proof fn law_composed_stays_in_range(
    layers: Seq<Layer>,
    i: int,
    j: int,
    threshold: i16,
    range: LogRange,
)
    requires
        range.lo <= 0 <= range.hi,
    ensures
        range.lo <= composed(layers, i, j, threshold, range) <= range.hi,
    decreases layers.len(),
{
    if layers.len() > 0 {
        law_composed_stays_in_range(layers.drop_last(), i, j, threshold, range);
    }
}

/// A layer has a say in a cell exactly if the cell is under its footprint, looks up a cell
/// of its grid, and that is surer than the threshold one way or the other; it then says
/// what that cell holds.
pub proof fn law_only_sure_cells_are_laid_over(layer: Layer, i: int, j: int, threshold: i16)
    ensures
        i < layer.footprint.i_lo || i > layer.footprint.i_hi || j < layer.footprint.j_lo || j
            > layer.footprint.j_hi ==> layer.says(i, j, threshold) is None,
        layer.footprint.i_lo <= i <= layer.footprint.i_hi && layer.footprint.j_lo <= j
            <= layer.footprint.j_hi ==> {
            let at = (i - layer.footprint.i_lo) * (layer.footprint.j_hi - layer.footprint.j_lo + 1)
                + (j - layer.footprint.j_lo);
            match layer.samples@[at] {
                None => layer.says(i, j, threshold) is None,
                Some(c) => {
                    let v = layer.grid.cells()[c.0 * layer.grid.w() + c.1];
                    &&& threshold >= 0 && v > threshold ==> layer.says(i, j, threshold) == Some(v)
                    &&& threshold >= 0 && v < -threshold ==> layer.says(i, j, threshold) == Some(v)
                    &&& threshold >= 0 && -threshold <= v <= threshold ==> layer.says(
                        i,
                        j,
                        threshold,
                    ) is None
                    &&& v == 0 ==> layer.says(i, j, threshold) is None
                },
            }
        },
{
}

/// One more layer adds what it says to a cell, within the range that log-odds are kept in,
/// and leaves a cell alone that it says nothing about; without layers a cell is even.
pub proof fn law_layers_add_up(
    layers: Seq<Layer>,
    layer: Layer,
    i: int,
    j: int,
    threshold: i16,
    range: LogRange,
)
    requires
        range.lo <= 0 <= range.hi,
    ensures
        composed(Seq::<Layer>::empty(), i, j, threshold, range) == 0,
        ({
            let before = composed(layers, i, j, threshold, range);
            let after = composed(layers.push(layer), i, j, threshold, range);
            match layer.says(i, j, threshold) {
                None => after == before,
                Some(v) => {
                    &&& range.lo <= before + v <= range.hi ==> after == before + v
                    &&& before + v > range.hi ==> after == range.hi
                    &&& before + v < range.lo ==> after == range.lo
                },
            }
        }),
{
    assert(layers.push(layer).drop_last() =~= layers);
}

/// The footprint reaches one cell beyond the corners on every side, and not beyond the
/// grid.
pub proof fn law_footprint_reaches_one_cell_beyond(
    lo: (i32, i32),
    hi: (i32, i32),
    w: int,
    h: int,
    i: int,
    j: int,
)
    requires
        0 < w <= usize::MAX,
        0 < h <= usize::MAX,
        0 <= i < h,
        0 <= j < w,
        0 <= lo.0 <= hi.0,
        0 <= lo.1 <= hi.1,
    ensures
        lo.0 - 1 <= i <= hi.0 + 1 && lo.1 - 1 <= j <= hi.1 + 1 ==> footprint(lo, hi, w, h).holds(
            i,
            j,
        ),
        footprint(lo, hi, w, h).holds(i, j) ==> lo.0 - 1 <= i <= hi.0 + 1 && lo.1 - 1 <= j <= hi.1
            + 1,
        footprint(lo, hi, w, h).i_hi < h,
        footprint(lo, hi, w, h).j_hi < w,
{
}

/// A rectangle grown by a point holds that point and all it held, and no side goes farther
/// than the point.
pub proof fn law_growing_keeps_what_was_held(b: Bounds, x: Single, y: Single, u: Single, v: Single)
    requires
        !x.nan(),
        !y.nan(),
    ensures
        b.holds(u, v) ==> b.grown(x, y).holds(u, v),
        b.holds(u, v) ==> b.grown(x, y).holds(x, y),
        b.grown(x, y).min_x == b.min_x || b.grown(x, y).min_x == x,
        b.grown(x, y).max_x == b.max_x || b.grown(x, y).max_x == x,
        b.grown(x, y).min_y == b.min_y || b.grown(x, y).min_y == y,
        b.grown(x, y).max_y == b.max_y || b.grown(x, y).max_y == y,
        b.holds(x, y) ==> b.grown(x, y) == b,
        b.holds(u, v) <==> b.min_x.at_most(u) && u.at_most(b.max_x) && b.min_y.at_most(v)
            && v.at_most(b.max_y),
{
}

/// The first point alone makes a rectangle of that point.
pub proof fn law_one_point_bounds_itself(x: Single, y: Single)
    requires
        x.finite(),
        y.finite(),
    ensures
        around(seq![(x, y)]) == (Bounds { min_x: x, max_x: x, min_y: y, max_y: y }),
{
    let one = seq![(x, y)];
    assert(one.drop_last() =~= Seq::<(Single, Single)>::empty());
    assert(around(one.drop_last()) == Bounds::nothing());
    assert(one.last() == (x, y));
}

/// A footprint has one row for each row number from its first to its last, a single one
/// where they are the same, and likewise its columns; none where the last comes before
/// the first.
pub proof fn law_a_footprint_counts_its_rows_and_columns(fp: Footprint)
    ensures
        fp.i_lo <= fp.i_hi ==> fp.rows() == fp.i_hi - fp.i_lo + 1,
        fp.i_lo > fp.i_hi ==> fp.rows() == 0,
        fp.j_lo <= fp.j_hi ==> fp.cols() == fp.j_hi - fp.j_lo + 1,
        fp.j_lo > fp.j_hi ==> fp.cols() == 0,
        fp.rows() > 0 && fp.cols() > 0 <==> fp.holds(fp.i_lo as int, fp.j_lo as int),
{
}

/// With the stock settings a submap says something of a cell only beyond a log-odds of
/// one and a half, either way, and the grid has cells of five centimetres.
pub proof fn law_stock_rendering(layer: Layer, i: int, j: int)
    ensures
        layer.says(i, j, stock_config().min_hit_threshold_fp) matches Some(v) ==> v > 150 || v
            < -150,
        stock_config().cell_m.bits == 0x3D4C_CCCD,
        stock_config().margin_m.bits == 0x3F00_0000,
{
}

} // verus!

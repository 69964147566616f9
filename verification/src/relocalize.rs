//! Finding the robot again on a known map.
//!
//! The search scores a scan at many poses: first coarsely over the free cells and
//! all headings, then finely around the best few that are not the same place. How
//! well a scan fits at a pose is arithmetic and the caller's; which poses to try,
//! which beams count, what is kept from one stage to the next and what is accepted
//! in the end is decided here.

use vstd::prelude::*;
use crate::grid::OccupancyGrid;
use crate::ieee::Single;
use crate::loop_closer::Gap;
use crate::sorting::{ascending, law_sorting_sorts, lemma_ascending_len};
use crate::sorting::{sort, Placed};
use crate::submap::{Pose2, Scan};

verus! {

#[derive(Debug, Clone, Copy, PartialEq, Eq, Structural)]
pub struct RelocalizeConfig {
    /// Every so many cells are tried in the coarse search.
    pub coarse_xy_stride: usize,
    /// How many headings are tried in the coarse search.
    pub coarse_yaw_bins: usize,
    /// How many cells around a seed are tried, each way.
    pub refine_xy_radius: usize,
    /// How many headings around a seed are tried, over twice the half-width.
    pub refine_yaw_bins: usize,
    pub refine_yaw_half_rad: Single,
    /// Largest mean residual of a pose that is accepted.
    pub max_mean_residual_m: Single,
    /// Fewest beams that must land on the map.
    pub min_beams_used: u32,
    /// No beam counts for more than this.
    pub clamp_m: Single,
    /// Log-odds above which a cell is a wall.
    pub wall_threshold_fp: i16,
    /// Log-odds above which a wall cannot be seen through: higher, so that what a
    /// single window inked is not opaque yet.
    pub see_through_fp: i16,
}

/// The stock settings: every second cell and thirty-six headings, then four cells
/// and eleven headings around a seed; five centimetres of residual over two dozen
/// beams.
pub open spec fn stock_config() -> RelocalizeConfig {
    RelocalizeConfig {
        coarse_xy_stride: 2,
        coarse_yaw_bins: 36,
        refine_xy_radius: 4,
        refine_yaw_bins: 11,
        refine_yaw_half_rad: Single { bits: 0x3E32_B8C2 },
        max_mean_residual_m: Single { bits: 0x3D4C_CCCD },
        min_beams_used: 24,
        clamp_m: Single { bits: 0x3E19_999A },
        wall_threshold_fp: 200,
        see_through_fp: 300,
    }
}

impl Default for RelocalizeConfig {
    fn default() -> (cfg: Self)
        ensures
            cfg == stock_config(),
    {
        RelocalizeConfig {
            coarse_xy_stride: 2,
            coarse_yaw_bins: 36,
            refine_xy_radius: 4,
            refine_yaw_bins: 11,
            refine_yaw_half_rad: Single { bits: 0x3E32_B8C2 },
            max_mean_residual_m: Single { bits: 0x3D4C_CCCD },
            min_beams_used: 24,
            clamp_m: Single { bits: 0x3E19_999A },
            wall_threshold_fp: 200,
            see_through_fp: 300,
        }
    }
}

#[derive(Debug, Clone, Copy, PartialEq, Eq, Structural)]
pub struct RelocalizeResult {
    pub pose: Pose2,
    pub mean_residual_m: Single,
    pub n_beams_used: u32,
    pub accepted: bool,
}

/// How well a scan agrees with the map at one pose.
#[derive(Debug, Clone, Copy, PartialEq, Eq, Structural)]
pub struct PoseAgreement {
    /// Mean residual over the beams that the map can judge.
    pub mean_residual_m: Single,
    /// How many those are.
    pub n_observed: u32,
    /// How many beams the scan has.
    pub n_beams: u32,
}

/// The cell in row `i` and column `j` lies in a grid of this size.
pub open spec fn inside(i: int, j: int, w: int, h: int) -> bool {
    0 <= i < h && 0 <= j < w
}

/// The position of a cell in a grid, or `None` when it lies off it.
pub fn cell_at(grid: &OccupancyGrid, cell: (i32, i32)) -> (at: Option<usize>)
    requires
        grid.well_formed(),
    ensures
        at is Some <==> inside(cell.0 as int, cell.1 as int, grid.w(), grid.h()),
        at matches Some(k) ==> k == cell.0 * grid.w() + cell.1 && k < grid.cells().len(),
{
    if cell.0 < 0 || cell.1 < 0 {
        return None;
    }
    let i: usize = cell.0 as usize;
    let j: usize = cell.1 as usize;
    if i >= grid.height() || j >= grid.width() {
        return None;
    }
    Some(grid.position(i, j))
}

/// What becomes of a beam at a tried pose.
#[derive(Debug, Clone, Copy, PartialEq, Eq, Structural)]
pub enum Fate {
    /// It ends off the map.
    Off,
    /// It would have had to see through a wall.
    Through,
    /// It ends in the cell at this position.
    Lands(usize),
}

/// The beam's midpoint lies in a wall, and not next to where the beam ends: a beam
/// that hits a wall close by has its midpoint in that same wall.
pub open spec fn sees_through(
    cells: Seq<i16>,
    w: int,
    h: int,
    end: (i32, i32),
    mid: (i32, i32),
    see_through_fp: i16,
) -> bool {
    &&& inside(mid.0 as int, mid.1 as int, w, h)
    &&& (mid.0 - end.0 > 1 || end.0 - mid.0 > 1 || mid.1 - end.1 > 1 || end.1 - mid.1 > 1)
    &&& cells[mid.0 * w + mid.1] > see_through_fp
}

/// A beam's fate, by the cells that its end and its midpoint fall in.
pub open spec fn fate(
    cells: Seq<i16>,
    w: int,
    h: int,
    end: (i32, i32),
    mid: (i32, i32),
    see_through_fp: i16,
) -> Fate {
    if !inside(end.0 as int, end.1 as int, w, h) {
        Fate::Off
    } else if sees_through(cells, w, h, end, mid, see_through_fp) {
        Fate::Through
    } else {
        Fate::Lands((end.0 * w + end.1) as usize)
    }
}

/// Tells a beam's fate. Beams off the map and beams through walls count in full
/// against the pose: left out, they would let a pose be judged by the few beams that
/// happen to fit.
pub fn fate_of(grid: &OccupancyGrid, end: (i32, i32), mid: (i32, i32), see_through_fp: i16) -> (f:
    Fate)
    requires
        grid.well_formed(),
    ensures
        f == fate(grid.cells(), grid.w(), grid.h(), end, mid, see_through_fp),
        f matches Fate::Lands(k) ==> k < grid.cells().len(),
{
    let at: usize = match cell_at(grid, end) {
        Some(k) => k,
        None => return Fate::Off,
    };
    match cell_at(grid, mid) {
        Some(_) => {
            let far = mid.0 - end.0 > 1 || end.0 - mid.0 > 1 || mid.1 - end.1 > 1 || end.1 - mid.1
                > 1;
            if far && grid.log_at(mid.0 as usize, mid.1 as usize) > see_through_fp {
                return Fate::Through;
            }
        },
        None => {},
    }
    Fate::Lands(at)
}

/// How many of the beams end on the map.
pub open spec fn on_map(fates: Seq<Fate>) -> nat
    decreases fates.len(),
{
    if fates.len() == 0 {
        0
    } else {
        on_map(fates.drop_last()) + if fates.last() is Off {
            0nat
        } else {
            1nat
        }
    }
}

/// Counts the beams that end on the map, through walls or not.
pub fn count_on_map(fates: &[Fate]) -> (n: u32)
    requires
        fates@.len() <= u32::MAX,
    ensures
        n == on_map(fates@),
{
    let mut n: u32 = 0;
    let mut i: usize = 0;
    while i < fates.len()
        invariant
            i <= fates@.len(),
            fates@.len() <= u32::MAX,
            n == on_map(fates@.take(i as int)),
            n <= i,
        decreases fates.len() - i,
    {
        assert(fates@.take(i + 1).drop_last() =~= fates@.take(i as int));
        match fates[i] {
            Fate::Off => {},
            _ => {
                n += 1;
            },
        }
        i += 1;
    }
    assert(fates@.take(i as int) =~= fates@);
    n
}

/// The map can judge a beam that ends in this cell: it has an opinion on it.
pub open spec fn judges(cells: Seq<i16>, w: int, h: int, end: (i32, i32), observed_fp: i16) -> bool {
    &&& inside(end.0 as int, end.1 as int, w, h)
    &&& {
        let v = cells[end.0 * w + end.1];
        v >= observed_fp || -v >= observed_fp
    }
}

/// The positions of the cells of the beams that the map can judge.
pub open spec fn judged(
    cells: Seq<i16>,
    w: int,
    h: int,
    ends: Seq<(i32, i32)>,
    observed_fp: i16,
) -> Seq<int>
    decreases ends.len(),
{
    if ends.len() == 0 {
        Seq::empty()
    } else {
        let rest = judged(cells, w, h, ends.drop_last(), observed_fp);
        if judges(cells, w, h, ends.last(), observed_fp) {
            rest.push(ends.last().0 * w + ends.last().1)
        } else {
            rest
        }
    }
}

/// Where to read distances for a score at a known pose. Beams that end off the map,
/// or in cells it knows nothing about, are left out: walking into a new room has to
/// read as "cannot judge", never as "wrong".
pub fn judged_cells(grid: &OccupancyGrid, ends: &[(i32, i32)], observed_fp: i16) -> (at: Vec<usize>)
    requires
        grid.well_formed(),
    ensures
        at@.map_values(|k: usize| k as int) == judged(
            grid.cells(),
            grid.w(),
            grid.h(),
            ends@,
            observed_fp,
        ),
        at@.len() <= ends@.len(),
{
    let mut at: Vec<usize> = Vec::new();
    let mut i: usize = 0;
    while i < ends.len()
        invariant
            i <= ends@.len(),
            grid.well_formed(),
            at@.map_values(|k: usize| k as int) =~= judged(
                grid.cells(),
                grid.w(),
                grid.h(),
                ends@.take(i as int),
                observed_fp,
            ),
            at@.len() <= i,
        decreases ends.len() - i,
    {
        assert(ends@.take(i + 1).drop_last() =~= ends@.take(i as int));
        let end = ends[i];
        match cell_at(grid, end) {
            Some(k) => {
                let v: i32 = grid.log_at(end.0 as usize, end.1 as usize) as i32;
                if v >= observed_fp as i32 || -v >= observed_fp as i32 {
                    at.push(k);
                }
            },
            None => {},
        }
        i += 1;
    }
    assert(ends@.take(i as int) =~= ends@);
    at
}

/// The agreement of a scan whose beams end in these cells, one each. `mean_residual_m` is the
/// mean over the cells that [`judged_cells`] gives; it counts for nothing when there
/// are none.
pub fn score_pose(
    grid: &OccupancyGrid,
    scan: &Scan,
    ends: &[(i32, i32)],
    observed_fp: i16,
    mean_residual_m: Single,
) -> (a: PoseAgreement)
    requires
        grid.well_formed(),
        ends@.len() == scan.beams@.len(),
        ends@.len() <= u32::MAX,
    ensures
        a.n_observed == judged(grid.cells(), grid.w(), grid.h(), ends@, observed_fp).len(),
        a.n_beams == scan.beams@.len(),
        a.mean_residual_m == if a.n_observed > 0 {
            mean_residual_m
        } else {
            Single { bits: 0 }
        },
{
    let at = judged_cells(grid, ends, observed_fp);
    let n: u32 = at.len() as u32;
    assert(at@.map_values(|k: usize| k as int).len() == at@.len());
    PoseAgreement {
        mean_residual_m: if n > 0 {
            mean_residual_m
        } else {
            Single { bits: 0 }
        },
        n_observed: n,
        n_beams: ends.len() as u32,
    }
}

/// Whether a scan with this many beams is worth a search.
pub fn is_searchable(n_beams: usize, cfg: &RelocalizeConfig) -> (r: bool)
    ensures
        r == (n_beams >= cfg.min_beams_used),
{
    n_beams as u64 >= cfg.min_beams_used as u64
}

/// A rectangle of cells, thinned: the rows and columns from the first up to but not
/// including the second, every `stride`-th of them.
#[derive(Debug, Clone, Copy, PartialEq, Eq, Structural)]
pub struct Patch {
    pub i_from: usize,
    pub i_to: usize,
    pub j_from: usize,
    pub j_to: usize,
    pub stride: usize,
}

/// The patch is made of cells of a grid of this size.
pub open spec fn fits(p: Patch, w: int, h: int) -> bool {
    p.i_to <= h && p.j_to <= w && p.stride > 0
}

/// The cell is one of the patch.
pub open spec fn covers(p: Patch, i: int, j: int) -> bool {
    &&& p.i_from <= i < p.i_to
    &&& p.j_from <= j < p.j_to
    &&& (i - p.i_from) % (p.stride as int) == 0
    &&& (j - p.j_from) % (p.stride as int) == 0
}

/// Row by row, and from left to right in a row.
pub open spec fn reads_before(a: (usize, usize), b: (usize, usize)) -> bool {
    a.0 < b.0 || a.0 == b.0 && a.1 < b.1
}

/// The list holds the free cells of the patch, each once, in reading order.
pub open spec fn lists_free(
    list: Seq<(usize, usize)>,
    p: Patch,
    free: Seq<bool>,
    w: int,
) -> bool {
    &&& forall|k: int|
        0 <= k < list.len() ==> covers(p, (#[trigger] list[k]).0 as int, list[k].1 as int)
            && free[list[k].0 * w + list[k].1]
    &&& forall|i: usize, j: usize|
        covers(p, i as int, j as int) && free[i * w + j] ==> #[trigger] list.contains((i, j))
    &&& forall|a: int, b: int|
        0 <= a < b < list.len() ==> reads_before(#[trigger] list[a], #[trigger] list[b])
}

/// The rows of the patch before `row` are listed, and those columns of `row` that
/// are before `col`.
spec fn listed_up_to(
    list: Seq<(usize, usize)>,
    p: Patch,
    free: Seq<bool>,
    w: int,
    row: int,
    col: int,
) -> bool {
    &&& forall|k: int|
        0 <= k < list.len() ==> covers(p, (#[trigger] list[k]).0 as int, list[k].1 as int)
            && free[list[k].0 * w + list[k].1] && (list[k].0 < row || list[k].0 == row
            && list[k].1 < col)
    &&& forall|i: usize, j: usize|
        covers(p, i as int, j as int) && free[i * w + j] && (i < row || i == row && j < col)
            ==> #[trigger] list.contains((i, j))
    &&& forall|a: int, b: int|
        0 <= a < b < list.len() ==> reads_before(#[trigger] list[a], #[trigger] list[b])
}

proof fn lemma_listed_more(
    list: Seq<(usize, usize)>,
    p: Patch,
    free: Seq<bool>,
    w: int,
    row: int,
    col: int,
    to: int,
)
    requires
        listed_up_to(list, p, free, w, row, col),
        col <= to,
        forall|j: int| col <= j < to ==> !(#[trigger] covers(p, row, j) && free[row * w + j]),
    ensures
        listed_up_to(list, p, free, w, row, to),
{
    assert forall|i: usize, j: usize|
        covers(p, i as int, j as int) && free[i * w + j] && (i < row || i == row && j < to) implies
        #[trigger] list.contains((i, j)) by {
        if i == row && j >= col {
            assert(covers(p, row, j as int));
        }
    }
}

proof fn lemma_between_strides(x: int, d: int, y: int)
    requires
        d > 0,
        0 <= x < y < x + d,
        x % d == 0,
    ensures
        y % d != 0,
{
    vstd::arithmetic::div_mod::lemma_fundamental_div_mod(x, d);
    vstd::arithmetic::div_mod::lemma_fundamental_div_mod(y, d);
    if y % d == 0 {
        let a = x / d;
        let b = y / d;
        assert(false) by (nonlinear_arith)
            requires
                x == d * a,
                y == d * b,
                x < y < x + d,
                d > 0,
        ;
    }
}

proof fn lemma_next_stride(x: int, d: int)
    requires
        d > 0,
        x % d == 0,
    ensures
        (x + d) % d == 0,
{
    vstd::arithmetic::div_mod::lemma_mod_add_multiples_vanish(x, d);
}

/// Lists one row's share.
fn list_row(list: &mut Vec<(usize, usize)>, free: &[bool], w: usize, h: usize, p: Patch, i: usize)
    requires
        w * h == free@.len(),
        fits(p, w as int, h as int),
        p.i_from <= i < p.i_to,
        (i - p.i_from) % (p.stride as int) == 0,
        listed_up_to(old(list)@, p, free@, w as int, i as int, 0),
    ensures
        listed_up_to(final(list)@, p, free@, w as int, i as int, w as int),
{
    proof {
        lemma_listed_more(
            list@,
            p,
            free@,
            w as int,
            i as int,
            0,
            if p.j_from < w {
                p.j_from as int
            } else {
                w as int
            },
        );
    }
    let n: usize = free.len();
    let mut j: usize = p.j_from;
    if p.j_from >= p.j_to {
        proof {
            lemma_listed_more(
                list@,
                p,
                free@,
                w as int,
                i as int,
                if p.j_from < w {
                    p.j_from as int
                } else {
                    w as int
                },
                w as int,
            );
        }
        return;
    }
    proof {
        assert(0int % (p.stride as int) == 0) by (nonlinear_arith)
            requires
                p.stride > 0,
        ;
    }
    while j < p.j_to
        invariant
            w * h == n,
            n == free@.len(),
            fits(p, w as int, h as int),
            p.i_from <= i < p.i_to,
            (i - p.i_from) % (p.stride as int) == 0,
            p.j_from <= j <= p.j_to,
            j < p.j_to ==> (j - p.j_from) % (p.stride as int) == 0,
            listed_up_to(list@, p, free@, w as int, i as int, j as int),
        decreases p.j_to - j,
    {
        assert(i * w + j < w * h) by (nonlinear_arith)
            requires
                i < h,
                j < w,
        ;
        assert(0 <= i * w) by (nonlinear_arith);
        let ghost before = list@;
        assert(covers(p, i as int, j as int));
        if free[i * w + j] {
            list.push((i, j));
            proof {
                assert forall|a: usize, b: usize|
                    covers(p, a as int, b as int) && free@[a * w + b] && (a < i || a == i && b < j
                        + 1) implies #[trigger] list@.contains((a, b)) by {
                    if a == i && b == j {
                        assert(list@[before.len() as int] == (i, j));
                    } else {
                        assert(before.contains((a, b)));
                        let k = choose|k: int| 0 <= k < before.len() && before[k] == (a, b);
                        assert(list@[k] == (a, b));
                    }
                }
            }
        }
        assert(listed_up_to(list@, p, free@, w as int, i as int, j + 1));
        let next: usize = if p.stride < p.j_to - j {
            j + p.stride
        } else {
            p.j_to
        };
        proof {
            assert forall|x: int| j + 1 <= x < next implies !(#[trigger] covers(p, i as int, x)
                && free@[i * w + x]) by {
                lemma_between_strides(j - p.j_from, p.stride as int, x - p.j_from);
            }
            lemma_listed_more(list@, p, free@, w as int, i as int, j + 1, next as int);
            lemma_next_stride(j - p.j_from, p.stride as int);
        }
        j = next;
    }
    proof {
        lemma_listed_more(list@, p, free@, w as int, i as int, j as int, w as int);
    }
}

proof fn lemma_rows_done(
    list: Seq<(usize, usize)>,
    p: Patch,
    free: Seq<bool>,
    w: int,
    row: int,
    to: int,
)
    requires
        listed_up_to(list, p, free, w, row, w) || listed_up_to(list, p, free, w, row + 1, 0),
        p.j_to <= w,
        row < to,
        forall|i: int, j: int| row < i < to ==> !(#[trigger] covers(p, i, j)),
    ensures
        listed_up_to(list, p, free, w, to, 0),
{
    assert forall|i: usize, j: usize|
        covers(p, i as int, j as int) && free[i * w + j] && (i < to || i == to && j < 0) implies
        #[trigger] list.contains((i, j)) by {
        if i > row {
            assert(!covers(p, i as int, j as int));
        }
    }
}

/// The free cells of a patch, in reading order.
pub fn free_cells(free: &[bool], w: usize, h: usize, p: Patch) -> (list: Vec<(usize, usize)>)
    requires
        w * h == free@.len(),
        fits(p, w as int, h as int),
    ensures
        lists_free(list@, p, free@, w as int),
{
    let mut list: Vec<(usize, usize)> = Vec::new();
    if p.i_from >= p.i_to {
        return list;
    }
    proof {
        assert(0int % (p.stride as int) == 0) by (nonlinear_arith)
            requires
                p.stride > 0,
        ;
    }
    let mut i: usize = p.i_from;
    while i < p.i_to
        invariant
            w * h == free@.len(),
            fits(p, w as int, h as int),
            p.i_from <= i <= p.i_to,
            i < p.i_to ==> (i - p.i_from) % (p.stride as int) == 0,
            listed_up_to(list@, p, free@, w as int, i as int, 0),
        decreases p.i_to - i,
    {
        list_row(&mut list, free, w, h, p, i);
        let next: usize = if p.stride < p.i_to - i {
            i + p.stride
        } else {
            p.i_to
        };
        proof {
            assert forall|x: int, j: int| i < x < next implies !(#[trigger] covers(p, x, j)) by {
                lemma_between_strides(i - p.i_from, p.stride as int, x - p.i_from);
            }
            lemma_rows_done(list@, p, free@, w as int, i as int, next as int);
            lemma_next_stride(i - p.i_from, p.stride as int);
        }
        i = next;
    }
    list
}

/// The cells of the coarse search: the whole grid, every so many cells.
pub open spec fn coarse_patch(cfg: RelocalizeConfig, w: usize, h: usize) -> Patch {
    Patch {
        i_from: 0,
        i_to: h,
        j_from: 0,
        j_to: w,
        stride: if cfg.coarse_xy_stride < 1 {
            1
        } else {
            cfg.coarse_xy_stride
        },
    }
}

/// The cells to try in the coarse search. When there are none the search is over.
pub fn coarse_centres(free: &[bool], w: usize, h: usize, cfg: &RelocalizeConfig) -> (list: Vec<
    (usize, usize),
>)
    requires
        w * h == free@.len(),
    ensures
        lists_free(list@, coarse_patch(*cfg, w, h), free@, w as int),
{
    let p = Patch {
        i_from: 0,
        i_to: h,
        j_from: 0,
        j_to: w,
        stride: if cfg.coarse_xy_stride < 1 {
            1
        } else {
            cfg.coarse_xy_stride
        },
    };
    free_cells(free, w, h, p)
}

/// Where a window of `radius` around `at` begins, within `0..n`.
pub open spec fn window_from(at: int, radius: int, n: int) -> int {
    if at - radius < 0 {
        0
    } else if at - radius > n {
        n
    } else {
        at - radius
    }
}

/// Where it ends.
pub open spec fn window_to(at: int, radius: int, n: int) -> int {
    if at + radius + 1 < 0 {
        0
    } else if at + radius + 1 > n {
        n
    } else {
        at + radius + 1
    }
}

/// The cells of the fine search around a seed, off the map cut away.
pub open spec fn fine_patch(cfg: RelocalizeConfig, seed: (i32, i32), w: usize, h: usize) -> Patch {
    let r = cfg.refine_xy_radius as int;
    Patch {
        i_from: window_from(seed.0 as int, r, h as int) as usize,
        i_to: window_to(seed.0 as int, r, h as int) as usize,
        j_from: window_from(seed.1 as int, r, w as int) as usize,
        j_to: window_to(seed.1 as int, r, w as int) as usize,
        stride: 1,
    }
}

fn window(at: i32, radius: usize, n: usize) -> (ends: (usize, usize))
    ensures
        ends.0 == window_from(at as int, radius as int, n as int),
        ends.1 == window_to(at as int, radius as int, n as int),
{
    let from: i128 = at as i128 - radius as i128;
    let to: i128 = at as i128 + radius as i128 + 1;
    let a: usize = if from < 0 {
        0
    } else if from > n as i128 {
        n
    } else {
        from as usize
    };
    let b: usize = if to < 0 {
        0
    } else if to > n as i128 {
        n
    } else {
        to as usize
    };
    (a, b)
}

/// The cells to try around a seed that lies in the cell `seed`.
pub fn refine_cells(
    free: &[bool],
    w: usize,
    h: usize,
    seed: (i32, i32),
    cfg: &RelocalizeConfig,
) -> (list: Vec<(usize, usize)>)
    requires
        w * h == free@.len(),
    ensures
        lists_free(list@, fine_patch(*cfg, seed, w, h), free@, w as int),
{
    let rows = window(seed.0, cfg.refine_xy_radius, h);
    let cols = window(seed.1, cfg.refine_xy_radius, w);
    let p = Patch { i_from: rows.0, i_to: rows.1, j_from: cols.0, j_to: cols.1, stride: 1 };
    free_cells(free, w, h, p)
}

/// The fine search tries exactly the free cells of the map that are within the
/// radius of the seed, both ways.
pub proof fn law_fine_search_covers_the_window(
    cfg: RelocalizeConfig,
    seed: (i32, i32),
    w: usize,
    h: usize,
    i: int,
    j: int,
)
    requires
        inside(i, j, w as int, h as int),
    ensures
        covers(fine_patch(cfg, seed, w, h), i, j) <==> {
            &&& -(cfg.refine_xy_radius as int) <= i - seed.0 <= cfg.refine_xy_radius
            &&& -(cfg.refine_xy_radius as int) <= j - seed.1 <= cfg.refine_xy_radius
        },
{
    let p = fine_patch(cfg, seed, w, h);
    assert((i - p.i_from) % 1 == 0 && (j - p.j_from) % 1 == 0);
}

/// The headings that the `t`-th of `n` workers scores: every `n`-th, from its own
/// number on.
pub fn yaw_bins(t: usize, n: usize, bins: usize) -> (mine: Vec<usize>)
    requires
        t < n,
    ensures
        forall|k: int| 0 <= k < mine@.len() ==> (#[trigger] mine@[k]) == t + k * n && mine@[k]
            < bins,
        t + mine@.len() * n >= bins,
{
    let mut mine: Vec<usize> = Vec::new();
    let mut at: usize = t;
    let mut over = false;
    assert(mine@.len() * n == 0) by (nonlinear_arith)
        requires
            mine@.len() == 0,
    ;
    while at < bins && !over
        invariant
            t < n,
            !over ==> at == t + mine@.len() * n,
            over ==> t + mine@.len() * n >= bins,
            forall|k: int|
                0 <= k < mine@.len() ==> (#[trigger] mine@[k]) == t + k * n && mine@[k] < bins,
        decreases
                if over {
                    0int
                } else {
                    bins - at + 1
                },
    {
        mine.push(at);
        assert((mine@.len() - 1) * n + n == mine@.len() * n) by (nonlinear_arith);
        if n < bins - at {
            at = at + n;
        } else {
            over = true;
        }
    }
    mine
}

/// Every heading is scored by the worker whose number it leaves on division.
pub proof fn law_workers_share_the_headings(y: int, n: int)
    requires
        n > 0,
        y >= 0,
    ensures
        0 <= y % n < n,
        y == y % n + (y / n) * n,
        0 <= y / n,
{
    vstd::arithmetic::div_mod::lemma_fundamental_div_mod(y, n);
    assert(0 <= y / n) by (nonlinear_arith)
        requires
            n > 0,
            y >= 0,
    ;
    assert(n * (y / n) == (y / n) * n) by (nonlinear_arith);
}

/// A tried pose: the mean residual over all beams, and how many beams end on the
/// map.
#[derive(Debug, Clone, Copy, PartialEq, Eq, Structural)]
pub struct Sighting {
    pub pose: Pose2,
    pub mean: Single,
    pub n: u32,
}

/// The sighting as a candidate.
pub open spec fn candidate(x: Sighting) -> RelocalizeResult {
    RelocalizeResult {
        pose: x.pose,
        mean_residual_m: x.mean,
        n_beams_used: x.n,
        accepted: false,
    }
}

fn as_candidate(x: Sighting) -> (c: RelocalizeResult)
    ensures
        c == candidate(x),
{
    RelocalizeResult {
        pose: x.pose,
        mean_residual_m: x.mean,
        n_beams_used: x.n,
        accepted: false,
    }
}

/// How many candidates each heading sends on.
pub const PER_YAW_TOP: usize = 4;

/// How many of the list's first candidates are no worse than this mean.
pub open spec fn no_worse(top: Seq<RelocalizeResult>, mean: Single) -> int
    decreases top.len(),
{
    if top.len() == 0 || !top[0].mean_residual_m.at_most(mean) {
        0
    } else {
        1 + no_worse(top.skip(1), mean)
    }
}

/// The list with a candidate put behind those no worse, cut to the best few.
pub open spec fn kept(top: Seq<RelocalizeResult>, c: RelocalizeResult) -> Seq<RelocalizeResult> {
    if top.len() == PER_YAW_TOP && top.last().mean_residual_m.at_most(c.mean_residual_m) {
        top
    } else {
        let longer = top.insert(no_worse(top, c.mean_residual_m), c);
        if longer.len() > PER_YAW_TOP {
            longer.take(PER_YAW_TOP as int)
        } else {
            longer
        }
    }
}

/// What one heading sends on: the best few of its sightings with enough beams.
pub open spec fn top_of(sightings: Seq<Sighting>, min_beams: u32) -> Seq<RelocalizeResult>
    decreases sightings.len(),
{
    if sightings.len() == 0 {
        Seq::empty()
    } else {
        let top = top_of(sightings.drop_last(), min_beams);
        if sightings.last().n < min_beams {
            top
        } else {
            kept(top, candidate(sightings.last()))
        }
    }
}

proof fn lemma_no_worse(top: Seq<RelocalizeResult>, mean: Single)
    ensures
        0 <= no_worse(top, mean) <= top.len(),
        forall|i: int|
            0 <= i < no_worse(top, mean) ==> (#[trigger] top[i]).mean_residual_m.at_most(mean),
        no_worse(top, mean) < top.len() ==> !top[no_worse(top, mean)].mean_residual_m.at_most(mean),
    decreases top.len(),
{
    if top.len() > 0 && top[0].mean_residual_m.at_most(mean) {
        lemma_no_worse(top.skip(1), mean);
        assert forall|i: int| 0 <= i < no_worse(top, mean) implies (
        #[trigger] top[i]).mean_residual_m.at_most(mean) by {
            if i > 0 {
                assert(top.skip(1)[i - 1] == top[i]);
            }
        }
    }
}

proof fn lemma_no_worse_is(top: Seq<RelocalizeResult>, mean: Single, k: int)
    requires
        0 <= k <= top.len(),
        forall|i: int| 0 <= i < k ==> (#[trigger] top[i]).mean_residual_m.at_most(mean),
        k < top.len() ==> !top[k].mean_residual_m.at_most(mean),
    ensures
        no_worse(top, mean) == k,
{
    lemma_no_worse(top, mean);
    let n = no_worse(top, mean);
    if n < k {
        assert(top[n].mean_residual_m.at_most(mean));
    } else if k < n {
        assert(top[k].mean_residual_m.at_most(mean));
    }
}

fn keep(top: &mut Vec<RelocalizeResult>, c: RelocalizeResult)
    requires
        old(top)@.len() <= PER_YAW_TOP,
    ensures
        final(top)@ == kept(old(top)@, c),
        final(top)@.len() <= PER_YAW_TOP,
{
    let ghost before = top@;
    if top.len() == PER_YAW_TOP && top[PER_YAW_TOP - 1].mean_residual_m.le(c.mean_residual_m) {
        return;
    }
    let mut at: usize = 0;
    while at < top.len() && top[at].mean_residual_m.le(c.mean_residual_m)
        invariant
            at <= top@.len(),
            top@ == before,
            forall|i: int|
                0 <= i < at ==> (#[trigger] before[i]).mean_residual_m.at_most(c.mean_residual_m),
        decreases top.len() - at,
    {
        at += 1;
    }
    proof {
        lemma_no_worse_is(before, c.mean_residual_m, at as int);
    }
    top.insert(at, c);
    if top.len() > PER_YAW_TOP {
        top.truncate(PER_YAW_TOP);
    }
}

/// Cuts one heading's sightings down to what it sends on. Several are kept, not just
/// the winner: in a nearly symmetric room the true pose often comes second or third.
pub fn coarse_top(sightings: &[Sighting], cfg: &RelocalizeConfig) -> (top: Vec<RelocalizeResult>)
    ensures
        top@ == top_of(sightings@, cfg.min_beams_used),
{
    let mut top: Vec<RelocalizeResult> = Vec::new();
    let mut i: usize = 0;
    while i < sightings.len()
        invariant
            i <= sightings@.len(),
            top@ == top_of(sightings@.take(i as int), cfg.min_beams_used),
            top@.len() <= PER_YAW_TOP,
        decreases sightings.len() - i,
    {
        assert(sightings@.take(i + 1).drop_last() =~= sightings@.take(i as int));
        if sightings[i].n >= cfg.min_beams_used {
            keep(&mut top, as_candidate(sightings[i]));
        }
        i += 1;
    }
    assert(sightings@.take(i as int) =~= sightings@);
    top
}

/// The list is ordered, best first.
pub open spec fn ordered(list: Seq<RelocalizeResult>) -> bool {
    forall|a: int, b: int|
        0 <= a < b < list.len() ==> (#[trigger] list[a]).mean_residual_m.at_most(
            (#[trigger] list[b]).mean_residual_m,
        )
}

/// What a heading sends on is ordered, is no more than a few, and nothing better was
/// left behind: any sighting with enough beams is in the list, or the list is full
/// and all in it are no worse.
pub proof fn law_top_keeps_the_best(sightings: Seq<Sighting>, min_beams: u32, k: int)
    requires
        0 <= k < sightings.len(),
        forall|i: int| 0 <= i < sightings.len() ==> !(#[trigger] sightings[i]).mean.nan(),
        sightings[k].n >= min_beams,
    ensures
        ordered(top_of(sightings, min_beams)),
        top_of(sightings, min_beams).len() <= PER_YAW_TOP,
        top_of(sightings, min_beams).contains(candidate(sightings[k])) || (top_of(
            sightings,
            min_beams,
        ).len() == PER_YAW_TOP && top_of(sightings, min_beams).last().mean_residual_m.at_most(
            sightings[k].mean,
        )),
{
    lemma_top(sightings, min_beams);
}

proof fn lemma_kept(top: Seq<RelocalizeResult>, c: RelocalizeResult)
    requires
        ordered(top),
        top.len() <= PER_YAW_TOP,
        forall|i: int| 0 <= i < top.len() ==> !(#[trigger] top[i]).mean_residual_m.nan(),
        !c.mean_residual_m.nan(),
    ensures
        ordered(kept(top, c)),
        kept(top, c).len() <= PER_YAW_TOP,
        forall|i: int| 0 <= i < kept(top, c).len() ==> !(#[trigger] kept(top, c)[i]).mean_residual_m.nan(),
        forall|x: RelocalizeResult|
            top.contains(x) || x == c ==> #[trigger] kept(top, c).contains(x) || kept(top, c).len()
                == PER_YAW_TOP && kept(top, c).last().mean_residual_m.at_most(x.mean_residual_m),
        top.len() == PER_YAW_TOP ==> kept(top, c).len() == PER_YAW_TOP
            && kept(top, c).last().mean_residual_m.at_most(top.last().mean_residual_m),
{
    let n = no_worse(top, c.mean_residual_m);
    lemma_no_worse(top, c.mean_residual_m);
    let longer = top.insert(n, c);
    assert forall|a: int, b: int| 0 <= a < b < longer.len() implies (
    #[trigger] longer[a]).mean_residual_m.at_most((#[trigger] longer[b]).mean_residual_m) by {
        let a0 = if a < n { a } else { a - 1 };
        let b0 = if b < n { b } else { b - 1 };
        if a != n && b != n {
            assert(top[a0].mean_residual_m.at_most(top[b0].mean_residual_m));
        } else if a == n {
            if b0 > n {
                assert(top[n].mean_residual_m.at_most(top[b0].mean_residual_m));
            }
        }
    }
    let out = kept(top, c);
    assert forall|x: RelocalizeResult| top.contains(x) || x == c implies #[trigger] out.contains(x)
        || out.len() == PER_YAW_TOP && out.last().mean_residual_m.at_most(x.mean_residual_m) by {
        if top.len() == PER_YAW_TOP && top.last().mean_residual_m.at_most(c.mean_residual_m) {
        } else {
            let at = if top.contains(x) {
                let i = choose|i: int| 0 <= i < top.len() && top[i] == x;
                if i < n {
                    i
                } else {
                    i + 1
                }
            } else {
                n
            };
            assert(longer[at] == x);
            if at < out.len() {
                assert(out[at] == x);
            } else {
                assert(longer[out.len() - 1].mean_residual_m.at_most(longer[at].mean_residual_m));
            }
        }
    }
}

proof fn lemma_top(sightings: Seq<Sighting>, min_beams: u32)
    requires
        forall|i: int| 0 <= i < sightings.len() ==> !(#[trigger] sightings[i]).mean.nan(),
    ensures
        ordered(top_of(sightings, min_beams)),
        top_of(sightings, min_beams).len() <= PER_YAW_TOP,
        forall|i: int|
            0 <= i < top_of(sightings, min_beams).len() ==> !(#[trigger] top_of(
                sightings,
                min_beams,
            )[i]).mean_residual_m.nan(),
        forall|k: int|
            0 <= k < sightings.len() && sightings[k].n >= min_beams ==> #[trigger] top_of(
                sightings,
                min_beams,
            ).contains(candidate(sightings[k])) || (top_of(sightings, min_beams).len()
                == PER_YAW_TOP && top_of(sightings, min_beams).last().mean_residual_m.at_most(
                sightings[k].mean,
            )),
    decreases sightings.len(),
{
    if sightings.len() > 0 {
        let fewer = sightings.drop_last();
        assert forall|i: int| 0 <= i < fewer.len() implies !(#[trigger] fewer[i]).mean.nan() by {
            assert(fewer[i] == sightings[i]);
        }
        lemma_top(fewer, min_beams);
        let top = top_of(fewer, min_beams);
        let c = candidate(sightings.last());
        if sightings.last().n >= min_beams {
            lemma_kept(top, c);
        }
        let out = top_of(sightings, min_beams);
        assert forall|k: int|
            0 <= k < sightings.len() && sightings[k].n >= min_beams implies #[trigger] out.contains(
            candidate(sightings[k]),
        ) || (out.len() == PER_YAW_TOP && out.last().mean_residual_m.at_most(
            sightings[k].mean,
        )) by {
            let x = candidate(sightings[k]);
            if k < fewer.len() {
                assert(fewer[k] == sightings[k]);
                assert(top.contains(candidate(fewer[k])) || top.len() == PER_YAW_TOP
                    && top.last().mean_residual_m.at_most(fewer[k].mean));
                if sightings.last().n >= min_beams && !top.contains(x) {
                    assert(out.last().mean_residual_m.at_most(top.last().mean_residual_m));
                }
            }
        }
    }
}

impl Placed for RelocalizeResult {
    /// By residual, in the total order of numbers.
    open spec fn place(self) -> int {
        self.mean_residual_m.total_place()
    }

    fn comes_no_later(self, other: Self) -> (r: bool) {
        self.mean_residual_m.total_le(other.mean_residual_m)
    }
}

/// Sorts the candidates of all headings, best first, and equals in the order they came.
pub fn rank(candidates: &[RelocalizeResult]) -> (list: Vec<RelocalizeResult>)
    ensures
        list@ == ascending(candidates@),
{
    sort(candidates)
}

/// A ranking holds the same candidates, each no later than the next.
pub proof fn law_ranking_sorts(candidates: Seq<RelocalizeResult>)
    ensures
        ascending(candidates).to_multiset() == candidates.to_multiset(),
        forall|a: int, b: int|
            0 <= a < b < ascending(candidates).len() ==> (#[trigger] ascending(
                candidates,
            )[a]).mean_residual_m.total_place() <= (#[trigger] ascending(
                candidates,
            )[b]).mean_residual_m.total_place(),
{
    law_sorting_sorts(candidates);
    assert forall|a: int, b: int| 0 <= a < b < ascending(candidates).len() implies (
    #[trigger] ascending(candidates)[a]).mean_residual_m.total_place() <= (
    #[trigger] ascending(candidates)[b]).mean_residual_m.total_place() by {
        assert(ascending(candidates)[a].place() <= ascending(candidates)[b].place());
    }
}

/// How many seeds are refined.
pub const TOP_K: usize = 5;

/// The bits of the square of the distance, forty centimetres, within which two
/// candidates may be the same place.
pub const MIN_SEP_SQ_BITS: u32 = 0x3E23_D70B;

/// The bits of the turn, six tenths of a radian, within which they are.
pub const MIN_SEP_YAW_BITS: u32 = 0x3F19_999A;

/// Two candidates are the same place. `xy` of the gap between them is squared.
pub open spec fn same_place(gap: Gap) -> bool {
    gap.xy.below(Single { bits: MIN_SEP_SQ_BITS }) && gap.yaw.below(
        Single { bits: MIN_SEP_YAW_BITS },
    )
}

/// The candidate `k` is the same place as a seed.
pub open spec fn repeats(gaps: Seq<Vec<Gap>>, seeds: Seq<usize>, k: int) -> bool {
    exists|s: int| 0 <= s < seeds.len() && same_place(gaps[k]@[#[trigger] seeds[s] as int])
}

/// The seeds among the first `n` candidates: those that repeat none before them,
/// until there are enough. `gaps[k][j]` is the gap between candidate `k` and an
/// earlier candidate `j`.
pub open spec fn seeds_of(gaps: Seq<Vec<Gap>>, n: int) -> Seq<usize>
    decreases n,
{
    if n <= 0 {
        Seq::empty()
    } else {
        let seeds = seeds_of(gaps, n - 1);
        if seeds.len() >= TOP_K || repeats(gaps, seeds, n - 1) {
            seeds
        } else {
            seeds.push((n - 1) as usize)
        }
    }
}

proof fn lemma_seeds(gaps: Seq<Vec<Gap>>, n: int)
    requires
        0 <= n <= usize::MAX,
    ensures
        seeds_of(gaps, n).len() <= TOP_K,
        seeds_of(gaps, n).len() <= n,
        n > 0 ==> seeds_of(gaps, n).len() > 0 && seeds_of(gaps, n)[0] == 0,
        forall|s: int|
            0 <= s < seeds_of(gaps, n).len() ==> (#[trigger] seeds_of(gaps, n)[s]) < n,
        forall|a: int, b: int|
            0 <= a < b < seeds_of(gaps, n).len() ==> (#[trigger] seeds_of(gaps, n)[a]) < (
            #[trigger] seeds_of(gaps, n)[b]),
        forall|a: int, b: int|
            0 <= a < b < seeds_of(gaps, n).len() ==> !same_place(
                gaps[#[trigger] seeds_of(gaps, n)[b] as int]@[#[trigger] seeds_of(
                    gaps,
                    n,
                )[a] as int],
            ),
    decreases n,
{
    if n > 0 {
        lemma_seeds(gaps, n - 1);
        if n == 1 {
            assert(seeds_of(gaps, 0).len() == 0);
            assert(!repeats(gaps, seeds_of(gaps, 0), 0));
        }
    }
}

/// Picks, from candidates ranked best first, those to refine. A good pose is
/// surrounded by nearly identical candidates that would waste the effort on one and
/// the same place.
pub fn pick_seeds(gaps: &[Vec<Gap>]) -> (seeds: Vec<usize>)
    requires
        forall|k: int| 0 <= k < gaps@.len() ==> (#[trigger] gaps@[k])@.len() >= k,
    ensures
        seeds@ == seeds_of(gaps@, gaps@.len() as int),
        forall|s: int| 0 <= s < seeds@.len() ==> (#[trigger] seeds@[s]) < gaps@.len(),
{
    let mut seeds: Vec<usize> = Vec::new();
    let mut k: usize = 0;
    while k < gaps.len()
        invariant
            k <= gaps@.len(),
            forall|k: int| 0 <= k < gaps@.len() ==> (#[trigger] gaps@[k])@.len() >= k,
            seeds@ == seeds_of(gaps@, k as int),
        decreases gaps.len() - k,
    {
        proof {
            lemma_seeds(gaps@, k as int);
        }
        if seeds.len() < TOP_K {
            let mut dup = false;
            let mut s: usize = 0;
            while s < seeds.len() && !dup
                invariant
                    s <= seeds@.len(),
                    k < gaps@.len(),
                    forall|k: int| 0 <= k < gaps@.len() ==> (#[trigger] gaps@[k])@.len() >= k,
                    forall|s: int| 0 <= s < seeds@.len() ==> (#[trigger] seeds@[s]) < k,
                    dup ==> repeats(gaps@, seeds@, k as int),
                    !dup ==> forall|t: int|
                        0 <= t < s ==> !same_place(
                            gaps@[k as int]@[#[trigger] seeds@[t] as int],
                        ),
                decreases seeds.len() - s,
            {
                let seed: usize = seeds[s];
                let gap = gaps[k][seed];
                if gap.xy.lt(Single { bits: MIN_SEP_SQ_BITS }) && gap.yaw.lt(
                    Single { bits: MIN_SEP_YAW_BITS },
                ) {
                    dup = true;
                    assert(same_place(gaps@[k as int]@[seeds@[s as int] as int]));
                }
                s += 1;
            }
            if !dup {
                seeds.push(k);
            }
        }
        k += 1;
    }
    proof {
        lemma_seeds(gaps@, gaps@.len() as int);
    }
    seeds
}

/// The seeds are different places, a few at most, and the best candidate is the
/// first of them.
pub proof fn law_seeds_are_different_places(gaps: Seq<Vec<Gap>>, a: int, b: int)
    requires
        0 < gaps.len() <= usize::MAX,
        0 <= a < b < seeds_of(gaps, gaps.len() as int).len(),
    ensures
        seeds_of(gaps, gaps.len() as int).len() <= TOP_K,
        seeds_of(gaps, gaps.len() as int)[0] == 0,
        !same_place(
            gaps[seeds_of(gaps, gaps.len() as int)[b] as int]@[seeds_of(
                gaps,
                gaps.len() as int,
            )[a] as int],
        ),
{
    lemma_seeds(gaps, gaps.len() as int);
}

/// The best so far after some more sightings: a later one only takes over when it is
/// better.
pub open spec fn better(
    best: Option<RelocalizeResult>,
    sightings: Seq<Sighting>,
    min_beams: u32,
) -> Option<RelocalizeResult>
    decreases sightings.len(),
{
    if sightings.len() == 0 {
        best
    } else {
        let so_far = better(best, sightings.drop_last(), min_beams);
        let x = sightings.last();
        if x.n < min_beams || (so_far matches Some(b) && !x.mean.below(b.mean_residual_m)) {
            so_far
        } else {
            Some(candidate(x))
        }
    }
}

/// Takes in the sightings around one seed.
pub fn refine(
    best: Option<RelocalizeResult>,
    sightings: &[Sighting],
    cfg: &RelocalizeConfig,
) -> (out: Option<RelocalizeResult>)
    ensures
        out == better(best, sightings@, cfg.min_beams_used),
{
    let mut out: Option<RelocalizeResult> = best;
    let mut i: usize = 0;
    assert(sightings@.take(0) =~= Seq::<Sighting>::empty());
    while i < sightings.len()
        invariant
            i <= sightings@.len(),
            out == better(best, sightings@.take(i as int), cfg.min_beams_used),
        decreases sightings.len() - i,
    {
        assert(sightings@.take(i + 1).drop_last() =~= sightings@.take(i as int));
        let x = sightings[i];
        if x.n >= cfg.min_beams_used {
            let wins = match out {
                Some(b) => x.mean.lt(b.mean_residual_m),
                None => true,
            };
            if wins {
                out = Some(as_candidate(x));
            }
        }
        i += 1;
    }
    assert(sightings@.take(i as int) =~= sightings@);
    out
}

/// The candidates around which the fine search is made: of the coarse ones, ranked, those
/// that are different places.
pub open spec fn refined_around(coarse: Seq<RelocalizeResult>, gaps: Seq<Vec<Gap>>) -> Seq<
    RelocalizeResult,
> {
    seeds_of(gaps, gaps.len() as int).map_values(|k: usize| ascending(coarse)[k as int])
}

/// What a search came to before it is judged: the best of the fine search, or the first
/// seed when that tried nothing.
pub open spec fn found(
    best: Option<RelocalizeResult>,
    seeds: Seq<RelocalizeResult>,
) -> Option<RelocalizeResult> {
    match best {
        Some(b) => Some(b),
        None => if seeds.len() > 0 {
            Some(seeds[0])
        } else {
            None
        },
    }
}

/// A pose good enough to be taken for the robot's.
pub open spec fn acceptable(cfg: RelocalizeConfig, r: RelocalizeResult) -> bool {
    r.mean_residual_m.at_most(cfg.max_mean_residual_m) && r.n_beams_used >= cfg.min_beams_used
}

/// The best of the fine search around all the seeds, one after the other.
pub open spec fn best_over(fine: Seq<Vec<Sighting>>, min_beams: u32) -> Option<RelocalizeResult>
    decreases fine.len(),
{
    if fine.len() == 0 {
        None
    } else {
        better(best_over(fine.drop_last(), min_beams), fine.last()@, min_beams)
    }
}

/// The result of a search: the best pose tried, accepted or not, or `None` when there
/// was nothing to try. `coarse` are the candidates of all headings, `gaps` those between
/// any two of them once they are ranked, and `fine` the sightings made around each of the
/// seeds that [`pick_seeds`] picks by these. Bringing the heading back into range is left
/// to the caller.
pub fn relocalize_against_grid(
    coarse: &[RelocalizeResult],
    gaps: &[Vec<Gap>],
    fine: &[Vec<Sighting>],
    cfg: &RelocalizeConfig,
) -> (r: Option<RelocalizeResult>)
    requires
        gaps@.len() == coarse@.len(),
        forall|k: int| 0 <= k < gaps@.len() ==> (#[trigger] gaps@[k])@.len() >= k,
        fine@.len() == refined_around(coarse@, gaps@).len(),
    ensures
        r == match found(best_over(fine@, cfg.min_beams_used), refined_around(coarse@, gaps@)) {
            Some(b) => Some(RelocalizeResult { accepted: acceptable(*cfg, b), ..b }),
            None => None,
        },
        r is None <==> coarse@.len() == 0,
{
    let mut best: Option<RelocalizeResult> = None;
    let mut i: usize = 0;
    while i < fine.len()
        invariant
            i <= fine@.len(),
            best == best_over(fine@.take(i as int), cfg.min_beams_used),
        decreases fine.len() - i,
    {
        assert(fine@.take(i + 1).drop_last() =~= fine@.take(i as int));
        best = refine(best, fine[i].as_slice(), cfg);
        i += 1;
    }
    assert(fine@.take(i as int) =~= fine@);
    let ranked = rank(coarse);
    let seeds = pick_seeds(gaps);
    proof {
        lemma_ascending_len(coarse@);
        assert(gaps.len() <= usize::MAX);
        lemma_seeds(gaps@, gaps@.len() as int);
    }
    let found = match best {
        Some(b) => b,
        None => if seeds.len() > 0 {
            ranked[seeds[0]]
        } else {
            return None;
        },
    };
    Some(
        RelocalizeResult {
            accepted: found.mean_residual_m.le(cfg.max_mean_residual_m) && found.n_beams_used
                >= cfg.min_beams_used,
            ..found
        },
    )
}

/// The fine search only improves: whatever it ends with was tried with enough beams,
/// and no such sighting is better.
pub proof fn law_refinement_finds_the_best(
    sightings: Seq<Sighting>,
    min_beams: u32,
    k: int,
)
    requires
        0 <= k < sightings.len(),
        sightings[k].n >= min_beams,
        forall|i: int| 0 <= i < sightings.len() ==> !(#[trigger] sightings[i]).mean.nan(),
    ensures
        better(None, sightings, min_beams) matches Some(b) && {
            &&& b.n_beams_used >= min_beams
            &&& b.mean_residual_m.at_most(sightings[k].mean)
            &&& exists|i: int| 0 <= i < sightings.len() && b == candidate(#[trigger] sightings[i])
        },
{
    lemma_better(sightings, min_beams);
}

proof fn lemma_better(sightings: Seq<Sighting>, min_beams: u32)
    requires
        forall|i: int| 0 <= i < sightings.len() ==> !(#[trigger] sightings[i]).mean.nan(),
    ensures
        better(None, sightings, min_beams) matches Some(b) ==> {
            &&& b.n_beams_used >= min_beams
            &&& exists|i: int| 0 <= i < sightings.len() && b == candidate(#[trigger] sightings[i])
        },
        forall|k: int|
            0 <= k < sightings.len() && (#[trigger] sightings[k]).n >= min_beams ==> {
                &&& better(None, sightings, min_beams) is Some
                &&& better(None, sightings, min_beams)->0.mean_residual_m.at_most(
                    sightings[k].mean,
                )
            },
    decreases sightings.len(),
{
    if sightings.len() > 0 {
        let fewer = sightings.drop_last();
        assert forall|i: int| 0 <= i < fewer.len() implies !(#[trigger] fewer[i]).mean.nan() by {
            assert(fewer[i] == sightings[i]);
        }
        lemma_better(fewer, min_beams);
        let out = better(None, sightings, min_beams);
        let so_far = better(None, fewer, min_beams);
        if let Some(b) = so_far {
            let i = choose|i: int| 0 <= i < fewer.len() && b == candidate(#[trigger] fewer[i]);
            assert(sightings[i] == fewer[i]);
            assert(!b.mean_residual_m.nan());
        }
        if let Some(b) = out {
            if out == so_far {
                let i = choose|i: int| 0 <= i < fewer.len() && b == candidate(#[trigger] fewer[i]);
                assert(b == candidate(sightings[i]));
            } else {
                assert(b == candidate(sightings[sightings.len() - 1]));
            }
        }
        assert forall|k: int|
            0 <= k < sightings.len() && (#[trigger] sightings[k]).n >= min_beams implies {
            &&& out is Some
            &&& out->0.mean_residual_m.at_most(sightings[k].mean)
        } by {
            if k < fewer.len() {
                assert(fewer[k] == sightings[k]);
            }
        }
    }
}

/// A beam that ends outside the grid is off; one whose midpoint is a wall of the grid, two
/// cells or more from its end in a row or a column, goes through; any other lands in the
/// cell it ends in.
pub proof fn law_a_beam_cannot_see_through_a_wall(
    cells: Seq<i16>,
    w: int,
    h: int,
    end: (i32, i32),
    mid: (i32, i32),
    see_through_fp: i16,
)
    ensures
        end.0 < 0 || end.1 < 0 || end.0 >= h || end.1 >= w ==> fate(
            cells,
            w,
            h,
            end,
            mid,
            see_through_fp,
        ) is Off,
        0 <= end.0 < h && 0 <= end.1 < w ==> {
            let f = fate(cells, w, h, end, mid, see_through_fp);
            let near = -1 <= mid.0 - end.0 <= 1 && -1 <= mid.1 - end.1 <= 1;
            let wall = 0 <= mid.0 < h && 0 <= mid.1 < w && cells[mid.0 * w + mid.1]
                > see_through_fp;
            &&& wall && !near ==> f is Through
            &&& !wall || near ==> f == Fate::Lands((end.0 * w + end.1) as usize)
        },
{
}

/// Every beam that is not off the map counts, once.
pub proof fn law_beams_on_the_map_are_counted(fates: Seq<Fate>, f: Fate)
    ensures
        on_map(Seq::<Fate>::empty()) == 0,
        f is Off ==> on_map(fates.push(f)) == on_map(fates),
        f is Through || f is Lands ==> on_map(fates.push(f)) == on_map(fates) + 1,
{
    assert(fates.push(f).drop_last() =~= fates);
}

/// A beam is judged by the cell it ends in, if that is one of the grid whose log-odds are
/// far enough from even to either side; beams are taken in one by one, in order.
pub proof fn law_only_cells_with_an_opinion_judge(
    cells: Seq<i16>,
    w: int,
    h: int,
    ends: Seq<(i32, i32)>,
    end: (i32, i32),
    observed_fp: i16,
)
    ensures
        judged(cells, w, h, Seq::<(i32, i32)>::empty(), observed_fp).len() == 0,
        0 <= end.0 < h && 0 <= end.1 < w && (cells[end.0 * w + end.1] >= observed_fp
            || cells[end.0 * w + end.1] <= -observed_fp) ==> judged(
            cells,
            w,
            h,
            ends.push(end),
            observed_fp,
        ) == judged(cells, w, h, ends, observed_fp).push(end.0 * w + end.1),
        !(0 <= end.0 < h && 0 <= end.1 < w) || -observed_fp < cells[end.0 * w + end.1] < observed_fp
            ==> judged(cells, w, h, ends.push(end), observed_fp) == judged(
            cells,
            w,
            h,
            ends,
            observed_fp,
        ),
{
    assert(ends.push(end).drop_last() =~= ends);
}

/// The coarse search tries the free cells in every so many rows and columns of the grid,
/// from the first on, and no others.
pub proof fn law_coarse_search_covers_the_map(
    cfg: RelocalizeConfig,
    w: usize,
    h: usize,
    free: Seq<bool>,
    list: Seq<(usize, usize)>,
    i: usize,
    j: usize,
)
    requires
        lists_free(list, coarse_patch(cfg, w, h), free, w as int),
    ensures
        cfg.coarse_xy_stride >= 1 ==> (list.contains((i, j)) <==> i < h && j < w && i as int
            % cfg.coarse_xy_stride as int == 0 && j as int % cfg.coarse_xy_stride as int == 0
            && free[i * w + j]),
        cfg.coarse_xy_stride == 0 ==> (list.contains((i, j)) <==> i < h && j < w && free[i * w
            + j]),
{
    let p = coarse_patch(cfg, w, h);
    if list.contains((i, j)) {
        let k = choose|k: int| 0 <= k < list.len() && list[k] == (i, j);
        assert(covers(p, list[k].0 as int, list[k].1 as int));
    }
    assert(i as int % 1 == 0 && j as int % 1 == 0);
    if covers(p, i as int, j as int) && free[i * w + j] {
        assert(list.contains((i, j)));
    }
}

/// The fine search around a seed tries the free cells of the grid that are within the
/// radius of it in rows and in columns, and no others.
pub proof fn law_fine_search_tries_all_around_the_seed(
    cfg: RelocalizeConfig,
    seed: (i32, i32),
    w: usize,
    h: usize,
    free: Seq<bool>,
    list: Seq<(usize, usize)>,
    i: usize,
    j: usize,
)
    requires
        lists_free(list, fine_patch(cfg, seed, w, h), free, w as int),
        i < h,
        j < w,
    ensures
        list.contains((i, j)) <==> free[i * w + j] && seed.0 - cfg.refine_xy_radius <= i <= seed.0
            + cfg.refine_xy_radius && seed.1 - cfg.refine_xy_radius <= j <= seed.1
            + cfg.refine_xy_radius,
{
    let p = fine_patch(cfg, seed, w, h);
    law_fine_search_covers_the_window(cfg, seed, w, h, i as int, j as int);
    if list.contains((i, j)) {
        let k = choose|k: int| 0 <= k < list.len() && list[k] == (i, j);
        assert(covers(p, list[k].0 as int, list[k].1 as int));
    }
    if covers(p, i as int, j as int) && free[i * w + j] {
        assert(list.contains((i, j)));
    }
}

/// Two candidates are one place exactly if they are less than forty centimetres apart and
/// less than six tenths of a radian turned.
pub proof fn law_one_place_is_near_in_both(gap: Gap)
    ensures
        gap.xy.bits < 0x3E23_D70B && gap.yaw.bits < 0x3F19_999A ==> same_place(gap),
        0x3E23_D70B <= gap.xy.bits < 0x8000_0000 ==> !same_place(gap),
        0x3F19_999A <= gap.yaw.bits < 0x8000_0000 ==> !same_place(gap),
{
}

/// A candidate that is not refined is the same place as one before it that is, or five
/// are refined already.
pub proof fn law_every_other_candidate_repeats_a_seed(gaps: Seq<Vec<Gap>>, n: int, k: int) -> (s: int)
    requires
        0 <= k < n <= usize::MAX,
        !seeds_of(gaps, n).contains(k as usize),
        seeds_of(gaps, n).len() < 5,
    ensures
        0 <= s < seeds_of(gaps, n).len(),
        seeds_of(gaps, n)[s] < k,
        gaps[k]@[seeds_of(gaps, n)[s] as int].xy.below(Single { bits: 0x3E23_D70B }),
        gaps[k]@[seeds_of(gaps, n)[s] as int].yaw.below(Single { bits: 0x3F19_999A }),
    decreases n,
{
    let all = seeds_of(gaps, n);
    let before = seeds_of(gaps, n - 1);
    lemma_seeds(gaps, n - 1);
    if all != before {
        assert(all =~= before.push((n - 1) as usize));
    }
    if k == n - 1 {
        if all != before {
            assert(all.last() == k as usize);
        }
        assert(repeats(gaps, before, n - 1));
        choose|s: int| 0 <= s < before.len() && same_place(gaps[k]@[#[trigger] before[s] as int])
    } else {
        if before.contains(k as usize) {
            let p = choose|p: int| 0 <= p < before.len() && before[p] == k as usize;
            assert(all[p] == k as usize);
        }
        let s = law_every_other_candidate_repeats_a_seed(gaps, n - 1, k);
        assert(all[s] == before[s]);
        s
    }
}

/// A pose is accepted exactly if its mean residual is not above the limit, and a number,
/// and enough beams land on the map.
pub proof fn law_acceptance_takes_fit_and_beams(cfg: RelocalizeConfig, r: RelocalizeResult)
    ensures
        cfg.max_mean_residual_m.below(r.mean_residual_m) ==> !acceptable(cfg, r),
        r.mean_residual_m.nan() ==> !acceptable(cfg, r),
        r.n_beams_used < cfg.min_beams_used ==> !acceptable(cfg, r),
        r.mean_residual_m.at_most(cfg.max_mean_residual_m) && r.n_beams_used >= cfg.min_beams_used
            ==> acceptable(cfg, r),
{
}

/// A sighting goes on as it was made: the pose, the mean and the beams; and as yet
/// unaccepted.
pub proof fn law_a_candidate_is_its_sighting(x: Sighting)
    ensures
        candidate(x).pose == x.pose,
        candidate(x).mean_residual_m == x.mean,
        candidate(x).n_beams_used == x.n,
        !candidate(x).accepted,
{
}

/// Over all seeds: whatever the fine search ends with was sighted around one of them with
/// enough beams, and no sighting with enough beams around any of them is better.
pub proof fn law_the_best_over_all_seeds_wins(fine: Seq<Vec<Sighting>>, min_beams: u32, a: int, k: int)
    requires
        0 <= a < fine.len(),
        0 <= k < fine[a]@.len(),
        fine[a]@[k].n >= min_beams,
        forall|b: int, i: int|
            #![trigger fine[b]@[i]]
            0 <= b < fine.len() && 0 <= i < fine[b]@.len() ==> !fine[b]@[i].mean.nan(),
    ensures
        best_over(fine, min_beams) matches Some(r) && {
            &&& r.n_beams_used >= min_beams
            &&& r.mean_residual_m.at_most(fine[a]@[k].mean)
            &&& exists|b: int, i: int|
                #![trigger fine[b]@[i]]
                0 <= b < fine.len() && 0 <= i < fine[b]@.len() && r.pose == fine[b]@[i].pose
                    && r.mean_residual_m == fine[b]@[i].mean && r.n_beams_used == fine[b]@[i].n
        },
{
    lemma_best_over(fine, min_beams);
}

proof fn lemma_best_over(fine: Seq<Vec<Sighting>>, min_beams: u32)
    requires
        forall|b: int, i: int|
            #![trigger fine[b]@[i]]
            0 <= b < fine.len() && 0 <= i < fine[b]@.len() ==> !fine[b]@[i].mean.nan(),
    ensures
        best_over(fine, min_beams) matches Some(r) ==> {
            &&& r.n_beams_used >= min_beams
            &&& !r.mean_residual_m.nan()
            &&& exists|b: int, i: int|
                #![trigger fine[b]@[i]]
                0 <= b < fine.len() && 0 <= i < fine[b]@.len() && r == candidate(fine[b]@[i])
        },
        forall|a: int, k: int|
            #![trigger fine[a]@[k]]
            0 <= a < fine.len() && 0 <= k < fine[a]@.len() && fine[a]@[k].n >= min_beams ==> {
                &&& best_over(fine, min_beams) is Some
                &&& best_over(fine, min_beams)->0.mean_residual_m.at_most(fine[a]@[k].mean)
            },
    decreases fine.len(),
{
    if fine.len() > 0 {
        let front = fine.drop_last();
        assert forall|b: int, i: int|
            #![trigger front[b]@[i]]
            0 <= b < front.len() && 0 <= i < front[b]@.len() implies !front[b]@[i].mean.nan() by {
            assert(front[b] == fine[b]);
            assert(!fine[b]@[i].mean.nan());
        }
        lemma_best_over(front, min_beams);
        let from = best_over(front, min_beams);
        let last = fine.len() - 1;
        assert(fine[last] == fine.last());
        assert forall|i: int| 0 <= i < fine.last()@.len() implies !(
        #[trigger] fine.last()@[i]).mean.nan() by {
            assert(!fine[last]@[i].mean.nan());
        }
        lemma_better_from(from, fine.last()@, min_beams);
        let out = best_over(fine, min_beams);
        if let Some(r) = out {
            if out == from {
                let (b, i) = choose|b: int, i: int|
                    #![trigger front[b]@[i]]
                    0 <= b < front.len() && 0 <= i < front[b]@.len() && r == candidate(
                        front[b]@[i],
                    );
                assert(front[b] == fine[b]);
                assert(r == candidate(fine[b]@[i]));
                assert(!fine[b]@[i].mean.nan());
            } else {
                let i = choose|i: int|
                    0 <= i < fine.last()@.len() && r == candidate(#[trigger] fine.last()@[i]);
                assert(r == candidate(fine[last]@[i]));
                assert(!fine[last]@[i].mean.nan());
            }
        }
        assert forall|a: int, k: int|
            #![trigger fine[a]@[k]]
            0 <= a < fine.len() && 0 <= k < fine[a]@.len() && fine[a]@[k].n >= min_beams implies {
            &&& out is Some
            &&& out->0.mean_residual_m.at_most(fine[a]@[k].mean)
        } by {
            if a < last {
                assert(front[a] == fine[a]);
                assert(front[a]@[k] == fine[a]@[k]);
            } else {
                assert(fine.last()@[k] == fine[a]@[k]);
            }
        }
    }
}

proof fn lemma_better_from(
    from: Option<RelocalizeResult>,
    sightings: Seq<Sighting>,
    min_beams: u32,
)
    requires
        from matches Some(b) ==> !b.mean_residual_m.nan() && b.n_beams_used >= min_beams,
        forall|i: int| 0 <= i < sightings.len() ==> !(#[trigger] sightings[i]).mean.nan(),
    ensures
        better(from, sightings, min_beams) matches Some(b) ==> {
            &&& b.n_beams_used >= min_beams
            &&& !b.mean_residual_m.nan()
            &&& better(from, sightings, min_beams) == from || exists|i: int|
                0 <= i < sightings.len() && b == candidate(#[trigger] sightings[i])
        },
        from matches Some(b) ==> better(from, sightings, min_beams) is Some && better(
            from,
            sightings,
            min_beams,
        )->0.mean_residual_m.at_most(b.mean_residual_m),
        forall|k: int|
            0 <= k < sightings.len() && (#[trigger] sightings[k]).n >= min_beams ==> {
                &&& better(from, sightings, min_beams) is Some
                &&& better(from, sightings, min_beams)->0.mean_residual_m.at_most(
                    sightings[k].mean,
                )
            },
    decreases sightings.len(),
{
    if sightings.len() > 0 {
        let fewer = sightings.drop_last();
        assert forall|i: int| 0 <= i < fewer.len() implies !(#[trigger] fewer[i]).mean.nan() by {
            assert(fewer[i] == sightings[i]);
        }
        lemma_better_from(from, fewer, min_beams);
        let out = better(from, sightings, min_beams);
        let so_far = better(from, fewer, min_beams);
        assert(!sightings[sightings.len() - 1].mean.nan());
        if let Some(b) = out {
            if out == so_far {
                if so_far != from {
                    let i = choose|i: int|
                        0 <= i < fewer.len() && b == candidate(#[trigger] fewer[i]);
                    assert(b == candidate(sightings[i]));
                }
            } else {
                assert(b == candidate(sightings[sightings.len() - 1]));
            }
        }
        assert forall|k: int|
            0 <= k < sightings.len() && (#[trigger] sightings[k]).n >= min_beams implies {
            &&& out is Some
            &&& out->0.mean_residual_m.at_most(sightings[k].mean)
        } by {
            if k < fewer.len() {
                assert(fewer[k] == sightings[k]);
            }
        }
    }
}

/// What a search came to is the best of the fine search where that tried anything, and
/// else the best coarse candidate: the one that no other ranks before.
pub proof fn law_without_a_fine_sighting_the_best_candidate_stands(
    coarse: Seq<RelocalizeResult>,
    gaps: Seq<Vec<Gap>>,
    best: Option<RelocalizeResult>,
    k: int,
)
    requires
        gaps.len() == coarse.len(),
        gaps.len() <= usize::MAX,
        0 <= k < coarse.len(),
    ensures
        best is Some ==> found(best, refined_around(coarse, gaps)) == best,
        best is None ==> (found(best, refined_around(coarse, gaps)) matches Some(r)
            && coarse.contains(r) && r.mean_residual_m.total_place()
            <= coarse[k].mean_residual_m.total_place()),
{
    let list = ascending(coarse);
    law_sorting_sorts(coarse);
    lemma_ascending_len(coarse);
    lemma_seeds(gaps, gaps.len() as int);
    list.to_multiset_ensures();
    coarse.to_multiset_ensures();
    assert(list.contains(list[0]));
    assert(list.to_multiset().contains(list[0]));
    assert(coarse.contains(list[0]));
    assert(coarse.contains(coarse[k]));
    assert(coarse.to_multiset().contains(coarse[k]));
    assert(list.contains(coarse[k]));
    let a = choose|a: int| 0 <= a < list.len() && list[a] == coarse[k];
    if a > 0 {
        assert(list[0].place() <= list[a].place());
    }
}

/// A heading sends on four candidates at most, and five are refined at most.
pub proof fn law_few_candidates_go_on(sightings: Seq<Sighting>, min_beams: u32, gaps: Seq<Vec<Gap>>)
    requires
        gaps.len() <= usize::MAX,
        forall|i: int| 0 <= i < sightings.len() ==> !(#[trigger] sightings[i]).mean.nan(),
    ensures
        top_of(sightings, min_beams).len() <= 4,
        seeds_of(gaps, gaps.len() as int).len() <= 5,
        PER_YAW_TOP == 4,
        TOP_K == 5,
{
    lemma_top(sightings, min_beams);
    lemma_seeds(gaps, gaps.len() as int);
}

/// What a heading sends on was sighted, with enough beams.
pub proof fn law_weak_sightings_are_not_sent_on(sightings: Seq<Sighting>, min_beams: u32, k: int)
    requires
        0 <= k < top_of(sightings, min_beams).len(),
    ensures
        top_of(sightings, min_beams)[k].n_beams_used >= min_beams,
        exists|i: int|
            #![trigger sightings[i]]
            0 <= i < sightings.len() && top_of(sightings, min_beams)[k].pose == sightings[i].pose
                && top_of(sightings, min_beams)[k].mean_residual_m == sightings[i].mean,
    decreases sightings.len(),
{
    if sightings.len() > 0 {
        let front = sightings.drop_last();
        let top = top_of(front, min_beams);
        let out = top_of(sightings, min_beams);
        let c = candidate(sightings.last());
        lemma_no_worse(top, c.mean_residual_m);
        let n = no_worse(top, c.mean_residual_m);
        if out[k] == c && sightings.last().n >= min_beams {
            assert(sightings[sightings.len() - 1] == sightings.last());
        } else {
            let j = if k < top.len() && out[k] == top[k] {
                k
            } else {
                k - 1
            };
            assert(out[k] == top[j]);
            law_weak_sightings_are_not_sent_on(front, min_beams, j);
            let i = choose|i: int|
                #![trigger front[i]]
                0 <= i < front.len() && top[j].pose == front[i].pose && top[j].mean_residual_m
                    == front[i].mean;
            assert(sightings[i] == front[i]);
        }
    }
}

/// The stock search: every second cell and thirty-six headings, then four cells and
/// eleven headings around each seed, and a pose only for a residual of five centimetres
/// over two dozen beams.
pub proof fn law_stock_search()
    ensures
        ({
            let cfg = stock_config();
            &&& cfg.coarse_xy_stride == 2
            &&& cfg.coarse_yaw_bins == 36
            &&& cfg.refine_xy_radius == 4
            &&& cfg.refine_yaw_bins == 11
            &&& cfg.refine_yaw_half_rad.bits == 0x3E32_B8C2
            &&& cfg.max_mean_residual_m.bits == 0x3D4C_CCCD
            &&& cfg.min_beams_used == 24
            &&& cfg.clamp_m.bits == 0x3E19_999A
            &&& cfg.max_mean_residual_m.below(cfg.clamp_m)
            &&& cfg.wall_threshold_fp == 200
            &&& cfg.see_through_fp == 300
            &&& cfg.wall_threshold_fp < cfg.see_through_fp
        }),
{
}

/// Cells are read by row, whatever their columns, and within a row from left to right.
pub proof fn law_cells_are_read_row_by_row(a: (usize, usize), b: (usize, usize))
    ensures
        a.0 < b.0 ==> reads_before(a, b) && !reads_before(b, a),
        a.0 == b.0 ==> (reads_before(a, b) <==> a.1 < b.1),
        !reads_before(a, a),
        a != b ==> reads_before(a, b) || reads_before(b, a),
{
}

/// A candidate is what was sighted, and not accepted yet.
pub proof fn law_a_candidate_is_not_accepted_yet(x: Sighting)
    ensures
        !candidate(x).accepted,
        candidate(x).pose == x.pose,
        candidate(x).mean_residual_m == x.mean,
        candidate(x).n_beams_used == x.n,
{
}

/// Two candidates are one place when they lie less than forty centimetres and six
/// tenths of a radian apart: near in place alone, or in heading alone, is not enough.
pub proof fn law_one_place_is_near_in_place_and_heading(gap: Gap)
    requires
        gap.xy.bits < 0x7F80_0000,
        gap.yaw.bits < 0x7F80_0000,
    ensures
        same_place(gap) <==> gap.xy.bits < 0x3E23_D70B && gap.yaw.bits < 0x3F19_999A,
{
}

/// Five seeds are refined at most, and of one heading four candidates are kept at most.
pub proof fn law_few_are_kept(
    gaps: Seq<Vec<Gap>>,
    n: int,
    sightings: Seq<Sighting>,
    min_beams: u32,
)
    requires
        0 <= n <= usize::MAX,
    ensures
        seeds_of(gaps, n).len() <= 5,
        top_of(sightings, min_beams).len() <= 4,
        seeds_of(gaps, n).len() < 5 && n < usize::MAX && !repeats(gaps, seeds_of(gaps, n), n)
            ==> seeds_of(gaps, n + 1) == seeds_of(gaps, n).push(n as usize),
        seeds_of(gaps, n).len() == 5 && n < usize::MAX ==> seeds_of(gaps, n + 1) == seeds_of(gaps, n),
{
    lemma_seeds(gaps, n);
    lemma_few_sightings(sightings, min_beams);
}

proof fn lemma_few_sightings(sightings: Seq<Sighting>, min_beams: u32)
    ensures
        top_of(sightings, min_beams).len() <= 4,
    decreases sightings.len(),
{
    if sightings.len() > 0 {
        lemma_few_sightings(sightings.drop_last(), min_beams);
    }
}

/// While fewer than four are kept a candidate is always taken up, and after that only
/// one that is better than the last.
pub proof fn law_a_better_candidate_is_taken_up(top: Seq<RelocalizeResult>, c: RelocalizeResult)
    requires
        top.len() <= 4,
    ensures
        top.len() < 4 ==> kept(top, c).len() == top.len() + 1 && kept(top, c).contains(c),
        top.len() == 4 && top[3].mean_residual_m.at_most(c.mean_residual_m) ==> kept(top, c) == top,
        top.len() == 4 ==> kept(top, c).len() == 4,
{
    lemma_place_in(top, c.mean_residual_m);
    let at = no_worse(top, c.mean_residual_m);
    let longer = top.insert(at, c);
    assert(longer[at] == c);
}

proof fn lemma_place_in(top: Seq<RelocalizeResult>, mean: Single)
    ensures
        0 <= no_worse(top, mean) <= top.len(),
    decreases top.len(),
{
    if top.len() > 0 && top[0].mean_residual_m.at_most(mean) {
        lemma_place_in(top.skip(1), mean);
    }
}

/// A search comes to the best of its fine part, or to its first seed where that tried
/// nothing, and to nothing only where there was no seed either.
pub proof fn law_a_search_comes_to_its_best(
    best: Option<RelocalizeResult>,
    seeds: Seq<RelocalizeResult>,
)
    ensures
        best is Some ==> found(best, seeds) == best,
        best is None && seeds.len() > 0 ==> found(best, seeds) == Some(seeds[0]),
        best is None && seeds.len() == 0 ==> found(best, seeds) is None,
{
}

} // verus!

//! The occupancy grid as the planner reads it: one fixed-point log-odds value
//! per cell, row by row.

use vstd::prelude::*;

verus! {

/// A grid of log-odds, held in hundredths.
pub struct OccupancyGrid {
    width: usize,
    height: usize,
    log: Vec<i16>,
}

impl OccupancyGrid {
    pub closed spec fn w(&self) -> int {
        self.width as int
    }

    pub closed spec fn h(&self) -> int {
        self.height as int
    }

    /// The log-odds, row by row.
    pub closed spec fn cells(&self) -> Seq<i16> {
        self.log@
    }

    /// The log-odds of the cell in row `i` and column `j`.
    pub open spec fn at(&self, i: int, j: int) -> i16 {
        self.cells()[i * self.w() + j]
    }

    /// One value per cell.
    pub closed spec fn well_formed(&self) -> bool {
        self.log.len() == self.width * self.height
    }

    /// A grid of the given values, or `None` when they are not one per cell.
    pub fn from_cells(width: usize, height: usize, log: Vec<i16>) -> (grid: Option<Self>)
        ensures
            grid is Some <==> log.len() == width * height,
            grid matches Some(g) ==> {
                &&& g.well_formed()
                &&& g.w() == width
                &&& g.h() == height
                &&& g.cells() == log@
            },
    {
        if height == 0 {
            assert(width * height == 0) by (nonlinear_arith)
                requires
                    height == 0,
            ;
            if log.len() == 0 {
                Some(OccupancyGrid { width, height, log })
            } else {
                None
            }
        } else {
            match width.checked_mul(height) {
                Some(n) => if log.len() == n {
                    Some(OccupancyGrid { width, height, log })
                } else {
                    None
                },
                None => None,
            }
        }
    }

    /// A grid has as many cells as its sides say.
    pub proof fn lemma_size(&self)
        requires
            self.well_formed(),
        ensures
            self.cells().len() == self.h() * self.w(),
            self.w() * self.h() <= usize::MAX,
    {
        assert(self.log.len() <= usize::MAX);
        assert(self.width * self.height == self.height * self.width) by (nonlinear_arith);
    }

    pub fn width(&self) -> (w: usize)
        ensures
            w == self.w(),
    {
        self.width
    }

    pub fn height(&self) -> (h: usize)
        ensures
            h == self.h(),
    {
        self.height
    }

    /// The position of the cell in row `i` and column `j`.
    pub fn position(&self, i: usize, j: usize) -> (k: usize)
        requires
            self.well_formed(),
            i < self.h(),
            j < self.w(),
        ensures
            k == i * self.w() + j,
            k < self.cells().len(),
    {
        assert(i * self.width + j < self.width * self.height) by (nonlinear_arith)
            requires
                i < self.height,
                j < self.width,
        ;
        assert(0 <= i * self.width) by (nonlinear_arith);
        i * self.width + j
    }

    /// The log-odds of the cell in row `i` and column `j`.
    pub fn log_at(&self, i: usize, j: usize) -> (log: i16)
        requires
            self.well_formed(),
            i < self.h(),
            j < self.w(),
        ensures
            log == self.at(i as int, j as int),
    {
        let k: usize = self.position(i, j);
        self.log[k]
    }

    /// A grid of cells that nothing is known about.
    pub fn blank(width: usize, height: usize) -> (grid: Self)
        requires
            width * height <= usize::MAX,
        ensures
            grid.well_formed(),
            grid.w() == width,
            grid.h() == height,
            forall|i: int, j: int|
                0 <= i < height && 0 <= j < width ==> #[trigger] grid.at(i, j) == 0,
    {
        let n: usize = width * height;
        let mut log: Vec<i16> = Vec::new();
        let mut k: usize = 0;
        while k < n
            invariant
                k <= n,
                log@.len() == k,
                forall|i: int| 0 <= i < k ==> log@[i] == 0,
            decreases n - k,
        {
            log.push(0);
            k += 1;
        }
        let grid = OccupancyGrid { width, height, log };
        proof {
            assert forall|i: int, j: int| 0 <= i < height && 0 <= j < width implies #[trigger] grid.at(
                i,
                j,
            ) == 0 by {
                assert(0 <= i * width + j < width * height) by (nonlinear_arith)
                    requires
                        0 <= i < height,
                        0 <= j < width,
                ;
            }
        }
        grid
    }

    /// Adds to a cell's log-odds, within the range they are kept in.
    pub fn add_log_odds_at(&mut self, i: usize, j: usize, v: i16, range: LogRange)
        requires
            old(self).well_formed(),
            i < old(self).h(),
            j < old(self).w(),
            range.lo <= range.hi,
        ensures
            final(self).well_formed(),
            final(self).w() == old(self).w(),
            final(self).h() == old(self).h(),
            forall|a: int, b: int|
                0 <= a < old(self).h() && 0 <= b < old(self).w() ==> #[trigger] final(self).at(a, b)
                    == if a == i && b == j {
                    range.summed(old(self).at(a, b), v)
                } else {
                    old(self).at(a, b)
                },
    {
        let k: usize = self.position(i, j);
        let ghost before = *self;
        let sum: i32 = self.log[k] as i32 + v as i32;
        let to: i16 = if sum < range.lo as i32 {
            range.lo
        } else if sum > range.hi as i32 {
            range.hi
        } else {
            sum as i16
        };
        self.log[k] = to;
        proof {
            assert forall|a: int, b: int|
                0 <= a < before.h() && 0 <= b < before.w() implies #[trigger] self.at(a, b) == if a
                == i && b == j {
                range.summed(before.at(a, b), v)
            } else {
                before.at(a, b)
            } by {
                assert(0 <= a * before.w() + b < before.w() * before.h()) by (nonlinear_arith)
                    requires
                        0 <= a < before.h(),
                        0 <= b < before.w(),
                ;
                if a * before.w() + b == k {
                    lemma_positions_differ(before.w(), a, b, i as int, j as int);
                }
            }
        }
    }
}

/// The range that log-odds are kept in.
#[derive(Debug, Clone, Copy, PartialEq, Eq, Structural)]
pub struct LogRange {
    pub lo: i16,
    pub hi: i16,
}

impl LogRange {
    /// The sum of two log-odds, moved into the range.
    pub open spec fn summed(self, a: i16, b: i16) -> i16 {
        if a + b < self.lo {
            self.lo
        } else if a + b > self.hi {
            self.hi
        } else {
            (a + b) as i16
        }
    }
}

/// Different cells have different positions.
pub proof fn lemma_positions_differ(w: int, i: int, j: int, a: int, b: int)
    requires
        0 <= j < w,
        0 <= b < w,
        i * w + j == a * w + b,
    ensures
        i == a,
        j == b,
{
    assert(i == a) by (nonlinear_arith)
        requires
            0 <= j < w,
            0 <= b < w,
            i * w + j == a * w + b,
    ;
}

/// Log-odds add up, but never beyond the ends of their range.
pub proof fn law_log_odds_add_up_within_their_range(range: LogRange, a: i16, b: i16)
    requires
        range.lo <= range.hi,
    ensures
        range.lo <= range.summed(a, b) <= range.hi,
        range.lo <= a + b <= range.hi ==> range.summed(a, b) == a + b,
        a + b > range.hi ==> range.summed(a, b) == range.hi,
        a + b < range.lo ==> range.summed(a, b) == range.lo,
        range.summed(a, b) == range.summed(b, a),
{
}

} // verus!

//! Running a recorded session through the mapping pipeline again, and asking what
//! came of it.
//!
//! Frames are taken where the robot stood still, runs of frames from one place make
//! one wide scan, and some of those are searched for on the finished map. The
//! pipeline and the arithmetic are the caller's.

use vstd::prelude::*;
use crate::grid::OccupancyGrid;
use crate::ieee::Single;
use crate::loop_closer::Gap;
use crate::relocalize::cell_at;
use crate::relocalize::inside;
use crate::replay::{TofRecord, TOF_COLS, TOF_ROWS};
use crate::sorting::ascending;
use crate::sorting::sort;
use crate::submap::{Pose2, Scan};

verus! {

// Depth frames

/// A zone's reading can be used: it is a number, in front of the sensor, and where a
/// status came with it the chip vouches for it.
pub open spec fn usable(range: Single, status: Option<u8>) -> bool {
    &&& range.finite()
    &&& Single { bits: 0 }.below(range)
    &&& status matches Some(s) ==> s == 5 || s == 9
}

pub fn is_usable(range: Single, status: Option<u8>) -> (r: bool)
    ensures
        r == usable(range, status),
{
    let vouched = match status {
        Some(s) => s == 5 || s == 9,
        None => true,
    };
    range.is_finite() && (Single { bits: 0 }).lt(range) && vouched
}

/// The reading of the `k`-th zone, row by row, where it can be used.
pub open spec fn zone(frame: TofRecord, statuses: bool, k: int) -> Option<Single> {
    let (row, col) = (k / (TOF_COLS as int), k % (TOF_COLS as int));
    let range = frame.ranges_m@[row]@[col];
    let status = if statuses {
        Some(frame.status@[row]@[col])
    } else {
        None
    };
    if usable(range, status) {
        Some(range)
    } else {
        None
    }
}

/// The readings of a frame that can be used, zone by zone; `statuses` says that the
/// recording carries them.
pub fn usable_ranges(frame: &TofRecord, statuses: bool) -> (ranges: Vec<Option<Single>>)
    ensures
        ranges@.len() == TOF_ROWS * TOF_COLS,
        forall|k: int|
            0 <= k < ranges@.len() ==> #[trigger] ranges@[k] == zone(*frame, statuses, k),
{
    let mut ranges: Vec<Option<Single>> = Vec::new();
    let mut i: usize = 0;
    while i < TOF_ROWS
        invariant
            i <= TOF_ROWS,
            ranges@.len() == i * TOF_COLS,
            forall|k: int|
                0 <= k < ranges@.len() ==> #[trigger] ranges@[k] == zone(*frame, statuses, k),
        decreases TOF_ROWS - i,
    {
        let mut j: usize = 0;
        while j < TOF_COLS
            invariant
                i < TOF_ROWS,
                j <= TOF_COLS,
                ranges@.len() == i * TOF_COLS + j,
                forall|k: int|
                    0 <= k < ranges@.len() ==> #[trigger] ranges@[k] == zone(*frame, statuses, k),
            decreases TOF_COLS - j,
        {
            let range = frame.ranges_m[i][j];
            let status = if statuses {
                Some(frame.status[i][j])
            } else {
                None
            };
            ranges.push(
                if is_usable(range, status) {
                    Some(range)
                } else {
                    None
                },
            );
            j += 1;
        }
        i += 1;
    }
    ranges
}

// Standing still

/// A moment of recorded odometry.
#[derive(Debug, Clone, Copy, PartialEq, Eq, Structural)]
pub struct Moment {
    pub ts_us: u64,
    pub odom: Pose2,
}

/// How long a stretch of odometry is looked at, in microseconds.
pub const STRETCH_US: u64 = 500_000;

/// The moment is too long before `now`.
pub open spec fn stale(m: Moment, now: u64) -> bool {
    now - m.ts_us > STRETCH_US
}

/// The moments from the first that is not stale.
pub open spec fn fresh(moments: Seq<Moment>, now: u64) -> Seq<Moment>
    decreases moments.len(),
{
    if moments.len() == 0 || !stale(moments[0], now) {
        moments
    } else {
        fresh(moments.skip(1), now)
    }
}

/// The recent odometry of a recording.
pub struct Stretch {
    moments: Vec<Moment>,
}

impl View for Stretch {
    type V = Seq<Moment>;

    closed spec fn view(&self) -> Seq<Moment> {
        self.moments@
    }
}

impl Stretch {
    pub fn new() -> (s: Self)
        ensures
            s@ == Seq::<Moment>::empty(),
    {
        Stretch { moments: Vec::new() }
    }

    /// Takes in a reading; one that is not a number is left out.
    pub fn push(&mut self, m: Moment)
        ensures
            final(self)@ == if m.odom.finite() {
                fresh(old(self)@.push(m), m.ts_us)
            } else {
                old(self)@
            },
    {
        if !m.odom.is_finite() {
            return;
        }
        let now: u64 = m.ts_us;
        self.moments.push(m);
        let ghost all = self.moments@;
        while self.moments.len() > 0 && now > self.moments[0].ts_us && now - self.moments[0].ts_us
            > STRETCH_US
            invariant
                fresh(self.moments@, now) == fresh(all, now),
            decreases self.moments.len(),
        {
            let ghost before = self.moments@;
            self.moments.remove(0);
            assert(self.moments@ =~= before.skip(1));
        }
    }

    /// The oldest and the newest moment.
    pub fn ends(&self) -> (e: Option<(Moment, Moment)>)
        ensures
            e == if self@.len() > 0 {
                Some((self@[0], self@.last()))
            } else {
                None
            },
    {
        if self.moments.len() == 0 {
            None
        } else {
            Some((self.moments[0], self.moments[self.moments.len() - 1]))
        }
    }
}

/// The bits of the way, a centimetre, and of the turn, a twentieth of a radian, across
/// a stretch that is still.
pub const STILL_XY_BITS: u32 = 0x3C23_D70A;

pub const STILL_YAW_BITS: u32 = 0x3D4C_CCCD;

/// Nothing moved across the stretch.
pub open spec fn is_still(gap: Gap) -> bool {
    gap.xy.below(Single { bits: STILL_XY_BITS }) && gap.yaw.below(Single { bits: STILL_YAW_BITS })
}

/// What to do about a depth frame.
#[derive(Debug, Clone, Copy, PartialEq, Eq, Structural)]
pub enum Plan {
    /// Nothing is known of the robot yet.
    Skip,
    /// The stand is over: close the window.
    Flush,
    /// Reproject the frame.
    Reproject,
}

/// What to do about a reprojected frame.
#[derive(Debug, Clone, Copy, PartialEq, Eq, Structural)]
pub enum Placing {
    /// Nothing is left of it.
    Skip,
    /// Ink it as it is.
    Ink,
    /// Add it to the window.
    Hold,
}

/// How a session is run again: every frame as it comes, or by windows; and windows
/// with or without their filter.
#[derive(Debug, Clone, Copy, PartialEq, Eq, Structural)]
pub struct Mode {
    pub continuous: bool,
    pub unfiltered: bool,
}

/// What was counted along the way.
#[derive(Debug, Clone, Copy, PartialEq, Eq, Structural)]
pub struct Counts {
    pub frames: u32,
    pub still: u32,
    pub inked: u32,
    pub beams: u64,
}

/// What to do about a frame: `gap` is what lies across the stretch, if there is one.
pub open spec fn plan_of(mode: Mode, known: bool, gap: Option<Gap>) -> Plan {
    match gap {
        Some(g) => if !known {
            Plan::Skip
        } else if !mode.continuous && !is_still(g) {
            Plan::Flush
        } else {
            Plan::Reproject
        },
        None => Plan::Skip,
    }
}

impl Counts {
    pub fn new() -> (c: Self)
        ensures
            c == (Counts { frames: 0, still: 0, inked: 0, beams: 0 }),
    {
        Counts { frames: 0, still: 0, inked: 0, beams: 0 }
    }

    /// Takes in a depth frame; `known` says that the robot's posture is.
    pub fn frame(&mut self, mode: Mode, known: bool, gap: Option<Gap>) -> (plan: Plan)
        requires
            old(self).frames < u32::MAX,
            old(self).still < u32::MAX,
        ensures
            plan == plan_of(mode, known, gap),
            *final(self) == (Counts {
                frames: (old(self).frames + 1) as u32,
                still: if known && (gap matches Some(g) && is_still(g)) {
                    (old(self).still + 1) as u32
                } else {
                    old(self).still
                },
                ..*old(self)
            }),
    {
        self.frames += 1;
        if !known {
            return Plan::Skip;
        }
        match gap {
            Some(g) => {
                let still = g.xy.lt(Single { bits: STILL_XY_BITS }) && g.yaw.lt(
                    Single { bits: STILL_YAW_BITS },
                );
                if still {
                    self.still += 1;
                }
                if !mode.continuous && !still {
                    Plan::Flush
                } else {
                    Plan::Reproject
                }
            },
            None => Plan::Skip,
        }
    }

    /// Takes in how many beams a frame came to.
    pub fn reprojected(&mut self, mode: Mode, beams: usize) -> (placing: Placing)
        requires
            old(self).beams + beams <= u64::MAX,
            old(self).inked < u32::MAX,
        ensures
            placing == if beams == 0 {
                Placing::Skip
            } else if mode.continuous || mode.unfiltered {
                Placing::Ink
            } else {
                Placing::Hold
            },
            *final(self) == (Counts {
                beams: (old(self).beams + beams) as u64,
                inked: if placing is Ink {
                    (old(self).inked + 1) as u32
                } else {
                    old(self).inked
                },
                ..*old(self)
            }),
    {
        if beams == 0 {
            return Placing::Skip;
        }
        self.beams += beams as u64;
        if mode.continuous || mode.unfiltered {
            self.inked += 1;
            Placing::Ink
        } else {
            Placing::Hold
        }
    }

    /// Takes in that a window was inked.
    pub fn window(&mut self)
        requires
            old(self).inked < u32::MAX,
        ensures
            *final(self) == (Counts { inked: (old(self).inked + 1) as u32, ..*old(self) }),
    {
        self.inked += 1;
    }
}

// Runs of frames

/// The bits of the way, three centimetres, within which two frames come from one place.
pub const PLACE_XY_BITS: u32 = 0x3CF5_C28F;

/// Two frames come from one place.
pub open spec fn one_place(gap: Gap) -> bool {
    gap.xy.below(Single { bits: PLACE_XY_BITS }) && gap.yaw.below(Single { bits: STILL_YAW_BITS })
}

/// A frame comes from the place that a run began at.
pub fn joins(gap: Gap) -> (r: bool)
    ensures
        r == one_place(gap),
{
    gap.xy.lt(Single { bits: PLACE_XY_BITS }) && gap.yaw.lt(Single { bits: STILL_YAW_BITS })
}

/// Where the runs begin, given for each frame whether it joins the run before it. The
/// first frame has none to join.
pub open spec fn starts(joined: Seq<bool>) -> Seq<int>
    decreases joined.len(),
{
    if joined.len() == 0 {
        Seq::empty()
    } else if joined.len() == 1 || !joined.last() {
        starts(joined.drop_last()).push(joined.len() - 1)
    } else {
        starts(joined.drop_last())
    }
}

/// The runs of frames, by where each begins and ends.
pub fn runs(joined: &[bool]) -> (list: Vec<(usize, usize)>)
    ensures
        list@.map_values(|r: (usize, usize)| r.0 as int) == starts(joined@),
        forall|k: int|
            0 <= k < list@.len() ==> (#[trigger] list@[k]).0 < list@[k].1 <= joined@.len(),
        forall|k: int|
            0 <= k && k + 1 < list@.len() ==> (#[trigger] list@[k]).1 == list@[k + 1].0,
        list@.len() > 0 <==> joined@.len() > 0,
        list@.len() > 0 ==> list@[0].0 == 0 && list@.last().1 == joined@.len(),
{
    let mut list: Vec<(usize, usize)> = Vec::new();
    let mut i: usize = 0;
    while i < joined.len()
        invariant
            i <= joined@.len(),
            list@.map_values(|r: (usize, usize)| r.0 as int) =~= starts(joined@.take(i as int)),
            forall|k: int| 0 <= k < list@.len() ==> (#[trigger] list@[k]).0 < list@[k].1 <= i,
            forall|k: int|
                0 <= k && k + 1 < list@.len() ==> (#[trigger] list@[k]).1 == list@[k + 1].0,
            list@.len() > 0 <==> i > 0,
            list@.len() > 0 ==> list@[0].0 == 0 && list@.last().1 == i,
        decreases joined.len() - i,
    {
        let ghost before = list@;
        assert(joined@.take(i + 1).drop_last() =~= joined@.take(i as int));
        assert(joined@.take(i + 1).last() == joined@[i as int]);
        if i == 0 || !joined[i] {
            list.push((i, i + 1));
            assert(list@.map_values(|r: (usize, usize)| r.0 as int) =~= before.map_values(
                |r: (usize, usize)| r.0 as int,
            ).push(i as int));
        } else {
            let n: usize = list.len();
            let run = list[n - 1];
            list.set(n - 1, (run.0, i + 1));
            assert(list@.map_values(|r: (usize, usize)| r.0 as int) =~= before.map_values(
                |r: (usize, usize)| r.0 as int,
            ));
        }
        i += 1;
    }
    assert(joined@.take(i as int) =~= joined@);
    list
}

/// The beams of some frames, one after the other.
pub open spec fn beams_of(frames: Seq<(Pose2, Scan)>) -> Seq<crate::submap::Beam>
    decreases frames.len(),
{
    if frames.len() == 0 {
        Seq::empty()
    } else {
        beams_of(frames.drop_last()) + frames.last().1.beams@
    }
}

/// The scan that a run of frames makes, at the pose of its first.
pub fn composite(frames: &[(Pose2, Scan)], from: usize, to: usize) -> (wide: (Pose2, Scan))
    requires
        from < to <= frames@.len(),
    ensures
        wide.0 == frames@[from as int].0,
        wide.1.beams@ == beams_of(frames@.subrange(from as int, to as int)),
{
    let mut scan = Scan::empty();
    let mut i: usize = from;
    assert(frames@.subrange(from as int, from as int) =~= Seq::<(Pose2, Scan)>::empty());
    while i < to
        invariant
            from <= i <= to <= frames@.len(),
            scan.beams@ == beams_of(frames@.subrange(from as int, i as int)),
        decreases to - i,
    {
        let ghost longer = frames@.subrange(from as int, i + 1);
        assert(longer.drop_last() =~= frames@.subrange(from as int, i as int));
        scan.merge(&frames[i].1);
        i += 1;
    }
    (frames[from].0, scan)
}

/// How many frames a run needs to say something about itself.
pub const MIN_RUN: usize = 20;

/// How many beams its other half needs.
pub const MIN_PROBE_BEAMS: usize = 50;

/// Splits a run: every second frame, from the first on, makes a map of the place, and
/// those in between are held against it. A run that is too short says nothing.
pub fn halves(from: usize, to: usize) -> (split: Option<(Vec<usize>, Vec<usize>)>)
    requires
        from <= to,
    ensures
        split is Some <==> to - from >= MIN_RUN,
        split matches Some((even, odd)) ==> {
            &&& even@.len() == (to - from + 1) / 2
            &&& odd@.len() == (to - from) / 2
            &&& forall|k: int| 0 <= k < even@.len() ==> #[trigger] even@[k] == from + 2 * k
            &&& forall|k: int| 0 <= k < odd@.len() ==> #[trigger] odd@[k] == from + 2 * k + 1
        },
{
    if to - from < MIN_RUN {
        return None;
    }
    let mut even: Vec<usize> = Vec::new();
    let mut odd: Vec<usize> = Vec::new();
    let mut i: usize = from;
    while i < to
        invariant
            from <= i <= to,
            even@.len() == (i - from + 1) / 2,
            odd@.len() == (i - from) / 2,
            forall|k: int| 0 <= k < even@.len() ==> #[trigger] even@[k] == from + 2 * k,
            forall|k: int| 0 <= k < odd@.len() ==> #[trigger] odd@[k] == from + 2 * k + 1,
        decreases to - i,
    {
        if (i - from) % 2 == 0 {
            even.push(i);
        } else {
            odd.push(i);
        }
        i += 1;
    }
    Some((even, odd))
}

// Searching for some of them

/// Which of `n` scans to search for on the finished map: some twenty of the later half.
pub fn probes(n: usize) -> (picked: Vec<usize>)
    ensures
        forall|k: int|
            0 <= k < picked@.len() ==> (#[trigger] picked@[k]) == n / 2 + k * probe_step(n as int)
                && picked@[k] < n,
        n / 2 + picked@.len() * probe_step(n as int) >= n,
{
    let step: usize = if n / 20 > 1 {
        n / 20
    } else {
        1
    };
    let mut picked: Vec<usize> = Vec::new();
    let mut at: usize = n / 2;
    let mut over = false;
    assert(picked@.len() * step == 0) by (nonlinear_arith)
        requires
            picked@.len() == 0,
    ;
    while at < n && !over
        invariant
            step == probe_step(n as int),
            step >= 1,
            !over ==> at == n / 2 + picked@.len() * step,
            over ==> n / 2 + picked@.len() * step >= n,
            forall|k: int|
                0 <= k < picked@.len() ==> (#[trigger] picked@[k]) == n / 2 + k * step && picked@[k]
                    < n,
        decreases
                if over {
                    0int
                } else {
                    n - at + 1
                },
    {
        picked.push(at);
        assert((picked@.len() - 1) * step + step == picked@.len() * step) by (nonlinear_arith);
        if step < n - at {
            at += step;
        } else {
            over = true;
        }
    }
    picked
}

/// How far apart they are.
pub open spec fn probe_step(n: int) -> int {
    if n / 20 > 1 {
        n / 20
    } else {
        1
    }
}

/// The bits of the error, three tenths of a metre and twenty degrees, within which a
/// search found the place.
pub const HIT_XY_BITS: u32 = 0x3E99_999A;

pub const HIT_YAW_BITS: u32 = 0x3EB3_3333;

/// The error is that of a search that found the place.
pub open spec fn hit(error: Gap) -> bool {
    error.xy.below(Single { bits: HIT_XY_BITS }) && error.yaw.below(Single { bits: HIT_YAW_BITS })
}

/// Whether a search found the place.
pub fn is_hit(error: Gap) -> (r: bool)
    ensures
        r == hit(error),
{
    error.xy.lt(Single { bits: HIT_XY_BITS }) && error.yaw.lt(Single { bits: HIT_YAW_BITS })
}

/// Where a beam reaches on the map: nowhere when it ends off the map, or when its middle
/// lies in a wall.
pub open spec fn reach(
    cells: Seq<i16>,
    w: int,
    h: int,
    end: (i32, i32),
    mid: (i32, i32),
    wall_fp: i16,
) -> Option<int> {
    if inside(mid.0 as int, mid.1 as int, w, h) && cells[mid.0 * w + mid.1] > wall_fp {
        None
    } else if inside(end.0 as int, end.1 as int, w, h) {
        Some(end.0 * w + end.1)
    } else {
        None
    }
}

/// The position of the cell that a beam reaches, if it reaches one.
pub fn reached(grid: &OccupancyGrid, end: (i32, i32), mid: (i32, i32), wall_fp: i16) -> (at: Option<
    usize,
>)
    requires
        grid.well_formed(),
    ensures
        match reach(grid.cells(), grid.w(), grid.h(), end, mid, wall_fp) {
            Some(k) => at matches Some(a) && a == k && k < grid.cells().len(),
            None => at is None,
        },
{
    match cell_at(grid, mid) {
        Some(_) => {
            if grid.log_at(mid.0 as usize, mid.1 as usize) > wall_fp {
                return None;
            }
        },
        None => {},
    }
    cell_at(grid, end)
}

/// The cells of a map that are walls.
pub open spec fn is_wall(grid: OccupancyGrid, above: i16, c: (usize, usize)) -> bool {
    inside(c.0 as int, c.1 as int, grid.w(), grid.h()) && grid.at(c.0 as int, c.1 as int) > above
}

/// The cells of a map whose log-odds are above a threshold, row by row.
pub fn wall_cells(grid: &OccupancyGrid, above: i16) -> (list: Vec<(usize, usize)>)
    requires
        grid.well_formed(),
    ensures
        forall|k: int| 0 <= k < list@.len() ==> is_wall(*grid, above, #[trigger] list@[k]),
        forall|c: (usize, usize)| is_wall(*grid, above, c) ==> #[trigger] list@.contains(c),
        forall|a: int, b: int|
            0 <= a < b < list@.len() ==> crate::relocalize::reads_before(
                #[trigger] list@[a],
                #[trigger] list@[b],
            ),
{
    let w: usize = grid.width();
    let h: usize = grid.height();
    let mut list: Vec<(usize, usize)> = Vec::new();
    let mut i: usize = 0;
    while i < h
        invariant
            i <= h,
            w == grid.w(),
            h == grid.h(),
            grid.well_formed(),
            forall|k: int|
                0 <= k < list@.len() ==> is_wall(*grid, above, #[trigger] list@[k]) && list@[k].0
                    < i,
            forall|c: (usize, usize)|
                is_wall(*grid, above, c) && c.0 < i ==> #[trigger] list@.contains(c),
            forall|a: int, b: int|
                0 <= a < b < list@.len() ==> crate::relocalize::reads_before(
                    #[trigger] list@[a],
                    #[trigger] list@[b],
                ),
        decreases h - i,
    {
        let mut j: usize = 0;
        while j < w
            invariant
                i < h,
                j <= w,
                w == grid.w(),
                h == grid.h(),
                grid.well_formed(),
                forall|k: int|
                    0 <= k < list@.len() ==> is_wall(*grid, above, #[trigger] list@[k])
                        && crate::relocalize::reads_before(list@[k], (i, j)),
                forall|c: (usize, usize)|
                    is_wall(*grid, above, c) && crate::relocalize::reads_before(c, (i, j))
                        ==> #[trigger] list@.contains(c),
                forall|a: int, b: int|
                    0 <= a < b < list@.len() ==> crate::relocalize::reads_before(
                        #[trigger] list@[a],
                        #[trigger] list@[b],
                    ),
            decreases w - j,
        {
            let ghost before = list@;
            if grid.log_at(i, j) > above {
                list.push((i, j));
                proof {
                    assert(list@[before.len() as int] == (i, j));
                    assert forall|c: (usize, usize)|
                        is_wall(*grid, above, c) && crate::relocalize::reads_before(
                            c,
                            (i, (j + 1) as usize),
                        ) implies #[trigger] list@.contains(c) by {
                        if c != (i, j) {
                            assert(before.contains(c));
                            let k = choose|k: int| 0 <= k < before.len() && before[k] == c;
                            assert(list@[k] == c);
                        }
                    }
                }
            }
            j += 1;
        }
        i += 1;
    }
    list
}

// Statistics

/// Sorts values.
pub fn sorted(xs: &[Single]) -> (list: Vec<Single>)
    ensures
        list@ == ascending(xs@),
{
    sort(xs)
}

/// Of `n` values in order, the position of the middle one and of the one that nine
/// tenths are below; `None` when there are none.
pub fn quantiles(n: usize) -> (at: Option<(usize, usize)>)
    requires
        n <= usize::MAX / 9,
    ensures
        at is None <==> n == 0,
        at matches Some((mid, high)) ==> {
            &&& mid == n / 2
            &&& high == n * 9 / 10
            &&& mid < n
            &&& high < n
        },
{
    if n == 0 {
        None
    } else {
        Some((n / 2, n * 9 / 10))
    }
}

// What is made of a recording

/// A reading is used exactly when it is a positive number, infinity aside, and the
/// chip, where it says anything, says one of the two things that vouch for it.
pub proof fn law_usable_readings_are_positive_and_vouched_for(range: Single, status: u8)
    ensures
        usable(range, None) <==> 0 < range.bits < 0x7F80_0000,
        usable(range, Some(status)) <==> 0 < range.bits < 0x7F80_0000 && (status == 5 || status
            == 9),
{
}

/// The zones of a frame are read row by row, and one that cannot be used is left out
/// rather than taken for a reading.
pub proof fn law_zones_are_read_row_by_row(frame: TofRecord, statuses: bool, row: int, col: int)
    requires
        0 <= row < TOF_ROWS,
        0 <= col < TOF_COLS,
    ensures
        zone(frame, statuses, row * TOF_COLS + col) matches Some(range) ==> range
            == frame.ranges_m@[row]@[col] && 0 < range.bits < 0x7F80_0000 && (statuses
            ==> frame.status@[row]@[col] == 5 || frame.status@[row]@[col] == 9),
        zone(frame, statuses, row * TOF_COLS + col) is None ==> !(0
            < frame.ranges_m@[row]@[col].bits < 0x7F80_0000) || (statuses
            && frame.status@[row]@[col] != 5 && frame.status@[row]@[col] != 9),
{
    vstd::arithmetic::div_mod::lemma_fundamental_div_mod_converse(
        row * TOF_COLS + col,
        TOF_COLS as int,
        row,
        col,
    );
}

/// A stretch drops its oldest moments while they lie more than half a second back, and
/// no others.
pub proof fn law_a_stretch_reaches_half_a_second_back(moments: Seq<Moment>, now: u64)
    ensures
        fresh(moments, now).len() <= moments.len(),
        fresh(moments, now) == moments.skip(moments.len() - fresh(moments, now).len()),
        fresh(moments, now).len() > 0 ==> now - fresh(moments, now)[0].ts_us <= 500_000,
        forall|i: int|
            0 <= i < moments.len() - fresh(moments, now).len() ==> now - (#[trigger] moments[i]).ts_us
                > 500_000,
    decreases moments.len(),
{
    if moments.len() > 0 && stale(moments[0], now) {
        let rest = moments.skip(1);
        law_a_stretch_reaches_half_a_second_back(rest, now);
        let out = fresh(moments, now);
        assert(out =~= moments.skip(moments.len() - out.len()));
        assert forall|i: int| 0 <= i < moments.len() - out.len() implies now - (
        #[trigger] moments[i]).ts_us > 500_000 by {
            if i > 0 {
                assert(rest[i - 1] == moments[i]);
            }
        }
    } else {
        assert(moments.skip(0) =~= moments);
    }
}

/// The robot stands still exactly when it moved less than a centimetre and turned less
/// than a twentieth of a radian: either alone is not enough.
pub proof fn law_still_means_neither_moved_nor_turned(gap: Gap)
    requires
        gap.xy.bits < 0x8000_0000,
        gap.yaw.bits < 0x8000_0000,
    ensures
        is_still(gap) <==> gap.xy.bits < 0x3C23_D70A && gap.yaw.bits < 0x3D4C_CCCD,
{
}

/// A frame is only reprojected when the robot's posture is known and, unless every frame
/// is taken, it stands still; a stand that is over closes the window.
pub proof fn law_moving_frames_are_left_out(mode: Mode, known: bool, gap: Option<Gap>)
    ensures
        !known || gap is None ==> plan_of(mode, known, gap) is Skip,
        known && mode.continuous && gap is Some ==> plan_of(mode, known, gap) is Reproject,
        known && !mode.continuous ==> (gap matches Some(g) ==> (plan_of(mode, known, gap)
            is Reproject <==> is_still(g)) && (plan_of(mode, known, gap) is Flush <==> !is_still(
            g,
        ))),
{
}

/// Frames come from one place when they lie less than three centimetres and a
/// twentieth of a radian apart, and a search found the place when it was less than
/// three tenths of a metre and twenty degrees off; in both, each measure counts.
pub proof fn law_both_measures_count(gap: Gap)
    requires
        gap.xy.bits < 0x8000_0000,
        gap.yaw.bits < 0x8000_0000,
    ensures
        one_place(gap) <==> gap.xy.bits < 0x3CF5_C28F && gap.yaw.bits < 0x3D4C_CCCD,
        hit(gap) <==> gap.xy.bits < 0x3E99_999A && gap.yaw.bits < 0x3EB3_3333,
        is_still(gap) ==> one_place(gap),
        one_place(gap) ==> hit(gap),
{
}

/// A frame that joins does not begin a run, one that does not begins one, and the first
/// always does.
pub proof fn law_runs_begin_where_frames_do_not_join(joined: Seq<bool>, last: bool)
    ensures
        joined.len() > 0 && last ==> starts(joined.push(last)) == starts(joined),
        joined.len() == 0 || !last ==> starts(joined.push(last)) == starts(joined).push(
            joined.len() as int,
        ),
        starts(Seq::<bool>::empty()).len() == 0,
{
    assert(joined.push(last).drop_last() =~= joined);
}

/// The beams of a run are those of its frames, in order, and none is left out.
pub proof fn law_a_run_keeps_every_beam(frames: Seq<(Pose2, Scan)>, frame: (Pose2, Scan))
    ensures
        beams_of(frames.push(frame)) == beams_of(frames) + frame.1.beams@,
        beams_of(Seq::<(Pose2, Scan)>::empty()).len() == 0,
{
    assert(frames.push(frame).drop_last() =~= frames);
}

/// The scans searched for lie at least one apart, and about a twentieth of all where
/// there are many.
pub proof fn law_probes_are_spread(n: int)
    requires
        n >= 0,
    ensures
        probe_step(n) >= 1,
        n < 40 ==> probe_step(n) == 1,
        n >= 40 ==> 20 * probe_step(n) <= n < 20 * (probe_step(n) + 1),
{
}

/// A beam reaches the cell it ends in unless its middle lies in a wall; off the map it
/// reaches nothing.
pub proof fn law_walls_stop_beams(
    cells: Seq<i16>,
    w: int,
    h: int,
    end: (i32, i32),
    mid: (i32, i32),
    wall_fp: i16,
)
    ensures
        0 <= mid.0 < h && 0 <= mid.1 < w && cells[mid.0 * w + mid.1] > wall_fp ==> reach(
            cells,
            w,
            h,
            end,
            mid,
            wall_fp,
        ) is None,
        !(0 <= end.0 < h && 0 <= end.1 < w) ==> reach(cells, w, h, end, mid, wall_fp) is None,
        0 <= end.0 < h && 0 <= end.1 < w && !(0 <= mid.0 < h && 0 <= mid.1 < w && cells[mid.0 * w
            + mid.1] > wall_fp) ==> reach(cells, w, h, end, mid, wall_fp) == Some(
            end.0 * w + end.1,
        ),
{
}

/// The walls of a map are its cells above the threshold, and no cell off the map.
pub proof fn law_walls_are_above_the_threshold(grid: OccupancyGrid, above: i16, c: (usize, usize))
    ensures
        is_wall(grid, above, c) <==> c.0 < grid.h() && c.1 < grid.w() && grid.cells()[c.0
            * grid.w() + c.1] > above,
{
}

/// Twenty frames make a run that says something about itself, and fifty beams a half of
/// it that can be held against the other.
pub proof fn law_short_runs_say_nothing()
    ensures
        MIN_RUN == 20,
        MIN_PROBE_BEAMS == 50,
{
}

} // verus!

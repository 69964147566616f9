//! Scans and the submaps they are inked into.
//!
//! A submap is a local grid and the world pose it is anchored at; what is inked
//! into it stays in its own frame, so moving the anchor moves everything with it.
//! The grid itself is whatever the caller casts rays into.

use vstd::prelude::*;
use crate::ieee::Single;

verus! {

/// A planar pose: position in metres and heading in radians.
#[derive(Debug, Clone, Copy, PartialEq, Eq, Structural)]
pub struct Pose2 {
    pub x: Single,
    pub y: Single,
    pub yaw: Single,
}

impl Pose2 {
    /// The origin, facing along x.
    pub open spec fn origin() -> Pose2 {
        Pose2 { x: Single { bits: 0 }, y: Single { bits: 0 }, yaw: Single { bits: 0 } }
    }

    pub open spec fn finite(self) -> bool {
        self.x.finite() && self.y.finite() && self.yaw.finite()
    }

    /// Equal as numbers, component by component.
    pub open spec fn equals(self, other: Pose2) -> bool {
        self.x.equals(other.x) && self.y.equals(other.y) && self.yaw.equals(other.yaw)
    }

    pub fn zero() -> (p: Pose2)
        ensures
            p == Pose2::origin(),
    {
        Pose2 { x: Single { bits: 0 }, y: Single { bits: 0 }, yaw: Single { bits: 0 } }
    }

    pub fn is_finite(self) -> (r: bool)
        ensures
            r == self.finite(),
    {
        self.x.is_finite() && self.y.is_finite() && self.yaw.is_finite()
    }

    pub fn eq_value(self, other: Pose2) -> (r: bool)
        ensures
            r == self.equals(other),
    {
        self.x.eq_value(other.x) && self.y.eq_value(other.y) && self.yaw.eq_value(other.yaw)
    }
}

/// A point of the body frame, in metres.
#[derive(Debug, Clone, Copy, PartialEq, Eq, Structural)]
pub struct Point {
    pub x: Single,
    pub y: Single,
}

impl Point {
    pub open spec fn equals(self, other: Point) -> bool {
        self.x.equals(other.x) && self.y.equals(other.y)
    }

    pub fn eq_value(self, other: Point) -> (r: bool)
        ensures
            r == self.equals(other),
    {
        self.x.eq_value(other.x) && self.y.eq_value(other.y)
    }
}

/// One beam, from where it left the sensor to what it hit, in the body frame.
#[derive(Debug, Clone, Copy, PartialEq, Eq, Structural)]
pub struct Beam {
    pub origin: Point,
    pub end: Point,
}

impl Beam {
    pub open spec fn equals(self, other: Beam) -> bool {
        self.origin.equals(other.origin) && self.end.equals(other.end)
    }

    pub fn eq_value(self, other: Beam) -> (r: bool)
        ensures
            r == self.equals(other),
    {
        self.origin.eq_value(other.origin) && self.end.eq_value(other.end)
    }
}

/// One horizontal scan. Every beam carries its own origin, so scans taken at one
/// body pose with the head turned differently merge into one.
#[derive(Debug)]
pub struct Scan {
    pub beams: Vec<Beam>,
}

/// A polar reading: a beam's azimuth and range, and where the beam ends.
#[derive(Debug, Clone, Copy, PartialEq, Eq, Structural)]
pub struct Reading {
    pub angle: Single,
    pub range: Single,
    pub end: Point,
}

/// A reading counts when angle and range are numbers and the range is long enough.
pub open spec fn counts(r: Reading, min_range: Single) -> bool {
    r.range.finite() && r.angle.finite() && min_range.at_most(r.range)
}

/// The beams of the readings that count, in order.
pub open spec fn beams_of(readings: Seq<Reading>, sensor: Point, min_range: Single) -> Seq<Beam>
    decreases readings.len(),
{
    if readings.len() == 0 {
        Seq::empty()
    } else {
        let rest = beams_of(readings.drop_last(), sensor, min_range);
        if counts(readings.last(), min_range) {
            rest.push(Beam { origin: sensor, end: readings.last().end })
        } else {
            rest
        }
    }
}

/// How many beams apart the beams of a thinned scan are, at least one.
pub open spec fn stride(n: int, max_beams: int) -> int {
    let most = if max_beams < 1 {
        1
    } else {
        max_beams
    };
    (n + most - 1) / most
}

/// Every `step`-th of the beams, starting with the first.
pub open spec fn every(beams: Seq<Beam>, step: int) -> Seq<Beam>
    recommends
        step > 0,
{
    Seq::new(((beams.len() + step - 1) / step) as nat, |k: int| beams[k * step])
}

/// A scan's beams thinned to at most `max_beams`.
pub open spec fn thinned(beams: Seq<Beam>, max_beams: int) -> Seq<Beam> {
    let most = if max_beams < 1 {
        1
    } else {
        max_beams
    };
    if beams.len() <= most {
        beams
    } else {
        every(beams, stride(beams.len() as int, max_beams))
    }
}

impl Scan {
    /// A scan with no beams.
    pub fn empty() -> (scan: Scan)
        ensures
            scan.beams@ == Seq::<Beam>::empty(),
    {
        Scan { beams: Vec::new() }
    }

    /// A copy of the scan.
    pub fn duplicate(&self) -> (scan: Scan)
        ensures
            scan.beams@ == self.beams@,
    {
        let mut beams: Vec<Beam> = Vec::new();
        let mut i: usize = 0;
        while i < self.beams.len()
            invariant
                i <= self.beams.len(),
                beams@ == self.beams@.take(i as int),
            decreases self.beams.len() - i,
        {
            beams.push(self.beams[i]);
            i += 1;
        }
        assert(self.beams@.take(i as int) =~= self.beams@);
        Scan { beams }
    }

    /// Every k-th beam, with k the least that leaves at most `max_beams`: a search
    /// costs its candidates times its beams, and a few hundred beams position as
    /// well as thousands.
    pub fn decimated(&self, max_beams: usize) -> (scan: Scan)
        ensures
            scan.beams@ == thinned(self.beams@, max_beams as int),
    {
        let n: usize = self.beams.len();
        let most: usize = if max_beams < 1 {
            1
        } else {
            max_beams
        };
        if n <= most {
            return self.duplicate();
        }
        let step: usize = (n - 1) / most + 1;
        proof {
            lemma_ceiling(n as int, most as int);
        }
        assert(step == stride(n as int, max_beams as int));
        let mut beams: Vec<Beam> = Vec::new();
        let mut i: usize = 0;
        let ghost mut k: int = 0;
        let ghost want = every(self.beams@, step as int);
        proof {
            lemma_ceiling(n as int, step as int);
            assert(want.len() == (n - 1) / (step as int) + 1);
        }
        while i < n
            invariant
                n == self.beams.len(),
                1 <= step,
                want == every(self.beams@, step as int),
                want.len() == (n - 1) / (step as int) + 1,
                0 <= k <= want.len(),
                i == if k * step < n {
                    k * step
                } else {
                    n as int
                },
                k == want.len() ==> i == n,
                k < want.len() ==> i < n,
                beams@ =~= want.take(k),
            decreases want.len() - k,
        {
            beams.push(self.beams[i]);
            assert(want[k] == self.beams@[k * step]);
            proof {
                lemma_stepped(n as int, step as int, k);
                assert((k + 1) * step == k * step + step) by (nonlinear_arith);
            }
            i = if step < n - i {
                i + step
            } else {
                n
            };
            proof {
                k = k + 1;
            }
        }
        assert(want.take(k) =~= want);
        Scan { beams }
    }

    /// The scan of one sensor's readings. Those that are not numbers, or are shorter
    /// than `min_range`, are dropped here once instead of by every consumer.
    pub fn from_polar(readings: &[Reading], sensor_in_body: Point, min_range: Single) -> (scan:
        Scan)
        ensures
            scan.beams@ == beams_of(readings@, sensor_in_body, min_range),
    {
        let mut beams: Vec<Beam> = Vec::new();
        let mut i: usize = 0;
        while i < readings.len()
            invariant
                i <= readings.len(),
                beams@ == beams_of(readings@.take(i as int), sensor_in_body, min_range),
            decreases readings.len() - i,
        {
            let r = readings[i];
            assert(readings@.take(i + 1).drop_last() =~= readings@.take(i as int));
            if r.range.is_finite() && r.angle.is_finite() && min_range.le(r.range) {
                beams.push(Beam { origin: sensor_in_body, end: r.end });
            }
            i += 1;
        }
        assert(readings@.take(i as int) =~= readings@);
        Scan { beams }
    }

    /// Folds a scan taken at the same body pose into this one.
    pub fn merge(&mut self, other: &Scan)
        ensures
            final(self).beams@ == old(self).beams@ + other.beams@,
    {
        let ghost before = self.beams@;
        let mut i: usize = 0;
        while i < other.beams.len()
            invariant
                i <= other.beams.len(),
                self.beams@ =~= before + other.beams@.take(i as int),
            decreases other.beams.len() - i,
        {
            self.beams.push(other.beams[i]);
            i += 1;
        }
        assert(other.beams@.take(i as int) =~= other.beams@);
    }

    /// Where the beams end, in the body frame: what every matcher scores.
    pub fn endpoints_body(&self) -> (ends: Vec<Point>)
        ensures
            ends@ == self.beams@.map_values(|b: Beam| b.end),
    {
        let mut ends: Vec<Point> = Vec::new();
        let mut i: usize = 0;
        while i < self.beams.len()
            invariant
                i <= self.beams.len(),
                ends@ == self.beams@.take(i as int).map_values(|b: Beam| b.end),
            decreases self.beams.len() - i,
        {
            ends.push(self.beams[i].end);
            i += 1;
            assert(ends@ =~= self.beams@.take(i as int).map_values(|b: Beam| b.end));
        }
        assert(self.beams@.take(i as int) =~= self.beams@);
        ends
    }

    /// How many beams the scan carries.
    pub fn n_valid(&self) -> (n: usize)
        ensures
            n == self.beams@.len(),
    {
        self.beams.len()
    }
}

proof fn lemma_ceiling(n: int, d: int)
    requires
        n >= 1,
        d >= 1,
    ensures
        (n + d - 1) / d == (n - 1) / d + 1,
        0 <= (n - 1) / d,
        (n - 1) / d + 1 <= n,
{
    vstd::arithmetic::div_mod::lemma_div_plus_one(n - 1, d);
    assert(0 <= (n - 1) / d <= n - 1) by (nonlinear_arith)
        requires
            n >= 1,
            d >= 1,
    ;
}

proof fn lemma_stepped(n: int, step: int, k: int)
    requires
        n >= 1,
        step >= 1,
        0 <= k < (n - 1) / step + 1,
    ensures
        k * step < n,
        k + 1 < (n - 1) / step + 1 <==> k * step + step < n,
{
    let q = (n - 1) / step;
    vstd::arithmetic::div_mod::lemma_fundamental_div_mod(n - 1, step);
    assert(k * step <= n - 1) by (nonlinear_arith)
        requires
            k <= q,
            n - 1 == step * q + (n - 1) % step,
            0 <= (n - 1) % step,
            step >= 1,
    ;
    if k + 1 <= q {
        assert(k * step + step <= n - 1) by (nonlinear_arith)
            requires
                k + 1 <= q,
                n - 1 == step * q + (n - 1) % step,
                0 <= (n - 1) % step,
                step >= 1,
        ;
    } else {
        assert(k * step + step > n - 1) by (nonlinear_arith)
            requires
                k == q,
                n - 1 == step * q + (n - 1) % step,
                (n - 1) % step < step,
                step >= 1,
        ;
    }
}

/// A thinned scan has no more beams than asked for, and keeps the first.
pub proof fn law_thinning_meets_the_limit(beams: Seq<Beam>, max_beams: int)
    requires
        max_beams >= 1,
    ensures
        thinned(beams, max_beams).len() <= max_beams,
        beams.len() > 0 ==> thinned(beams, max_beams).len() > 0 && thinned(beams, max_beams)[0]
            == beams[0],
{
    let n = beams.len() as int;
    if n > max_beams {
        let step = stride(n, max_beams);
        lemma_ceiling(n, max_beams);
        lemma_ceiling(n, step);
        vstd::arithmetic::div_mod::lemma_fundamental_div_mod(n - 1, max_beams);
        vstd::arithmetic::div_mod::lemma_fundamental_div_mod(n - 1, step);
        let q = (n - 1) / max_beams;
        let p = (n - 1) / step;
        assert(p < max_beams) by (nonlinear_arith)
            requires
                n - 1 == max_beams * q + (n - 1) % max_beams,
                (n - 1) % max_beams < max_beams,
                step == q + 1,
                n - 1 == step * p + (n - 1) % step,
                0 <= (n - 1) % step,
                step >= 1,
                max_beams >= 1,
        ;
        assert(every(beams, step)[0] == beams[0]) by {
            assert(0 * step == 0);
        }
    }
}

/// A scan kept for loop closure, in the frame of its submap.
#[derive(Debug)]
pub struct RawScan {
    pub pose_in_submap: Pose2,
    pub scan: Scan,
}

/// How many scans a submap keeps for loop closure.
pub const MAX_RAW_SCANS: usize = 10;

/// A local grid and the world pose of its origin.
#[derive(Debug)]
pub struct Submap<G> {
    pub grid: G,
    pub anchor_pose: Pose2,
    pub raw_scans: Vec<RawScan>,
}

/// How often a scan asked to be inked `passes` times is inked.
pub open spec fn times_inked(passes: int) -> int {
    if passes < 1 {
        1
    } else {
        passes
    }
}

/// The positions of the beams worth a ray: those that are not shorter than a cell.
pub open spec fn worth_casting(lengths_sq: Seq<Single>, cell_sq: Single) -> Seq<int>
    decreases lengths_sq.len(),
{
    if lengths_sq.len() == 0 {
        Seq::empty()
    } else {
        let rest = worth_casting(lengths_sq.drop_last(), cell_sq);
        if lengths_sq.last().below(cell_sq) {
            rest
        } else {
            rest.push(lengths_sq.len() - 1)
        }
    }
}

/// Which beams to cast into a grid, by position; with both lengths and cell size
/// squared. A beam shorter than a cell starts and ends in the same cell, and would
/// mark the sensor's own cell as a wall.
pub fn rays(lengths_sq: &[Single], cell_sq: Single) -> (picked: Vec<usize>)
    ensures
        picked@.map_values(|i: usize| i as int) == worth_casting(lengths_sq@, cell_sq),
{
    let mut picked: Vec<usize> = Vec::new();
    let mut i: usize = 0;
    while i < lengths_sq.len()
        invariant
            i <= lengths_sq.len(),
            picked@.map_values(|i: usize| i as int) =~= worth_casting(
                lengths_sq@.take(i as int),
                cell_sq,
            ),
        decreases lengths_sq.len() - i,
    {
        assert(lengths_sq@.take(i + 1).drop_last() =~= lengths_sq@.take(i as int));
        if !lengths_sq[i].lt(cell_sq) {
            picked.push(i);
        }
        i += 1;
    }
    assert(lengths_sq@.take(i as int) =~= lengths_sq@);
    picked
}

impl<G> Submap<G> {
    /// Whether anything was ever integrated.
    pub open spec fn inked(&self) -> bool {
        self.raw_scans@.len() > 0
    }

    /// An empty submap with its origin at `anchor_pose`.
    pub fn new_at(anchor_pose: Pose2, grid: G) -> (map: Self)
        ensures
            map.grid == grid,
            map.anchor_pose == anchor_pose,
            map.raw_scans@ == Seq::<RawScan>::empty(),
    {
        Submap { grid, anchor_pose, raw_scans: Vec::new() }
    }

    pub fn anchor_pose(&self) -> (p: Pose2)
        ensures
            p == self.anchor_pose,
    {
        self.anchor_pose
    }

    pub fn grid(&self) -> (g: &G)
        ensures
            *g == self.grid,
    {
        &self.grid
    }

    pub fn grid_mut(&mut self) -> (g: &mut G)
        ensures
            *g == old(self).grid,
            final(self).grid == *final(g),
            final(self).anchor_pose == old(self).anchor_pose,
            final(self).raw_scans == old(self).raw_scans,
    {
        &mut self.grid
    }

    pub fn raw_scans(&self) -> (scans: &[RawScan])
        ensures
            scans@ == self.raw_scans@,
    {
        self.raw_scans.as_slice()
    }

    pub fn has_content(&self) -> (r: bool)
        ensures
            r == self.inked(),
    {
        self.raw_scans.len() > 0
    }

    /// Moves the submap: what it holds stays put in its own frame.
    pub fn set_anchor_pose(&mut self, new_anchor: Pose2)
        ensures
            *final(self) == (Submap { anchor_pose: new_anchor, ..*old(self) }),
    {
        self.anchor_pose = new_anchor;
    }

    /// How often to cast each ray of a scan taken at this pose: not at all from a
    /// pose that is not a number, and at least once otherwise.
    pub fn casts(&self, body_pose_world: Pose2, passes: usize) -> (n: usize)
        ensures
            n == if body_pose_world.finite() {
                times_inked(passes as int)
            } else {
                0
            },
    {
        if !body_pose_world.is_finite() {
            0
        } else if passes < 1 {
            1
        } else {
            passes
        }
    }

    /// Takes in a scan whose rays have been cast, however many passes that took.
    /// `pose_local` is the body pose in the submap's frame, and `touched` says that
    /// a ray reached the grid. The scan is remembered once: duplicates would fill
    /// the loop closer's witness slots with one observation. One that reached
    /// nothing is not remembered, nor one taken at a pose that is not a number.
    pub fn integrate_scan_weighted(
        &mut self,
        body_pose_world: Pose2,
        pose_local: Pose2,
        scan: &Scan,
        touched: bool,
    )
        ensures
            final(self).grid == old(self).grid,
            final(self).anchor_pose == old(self).anchor_pose,
            body_pose_world.finite() && touched && old(self).raw_scans@.len() < MAX_RAW_SCANS ==> {
                &&& final(self).raw_scans@.len() == old(self).raw_scans@.len() + 1
                &&& final(self).raw_scans@.drop_last() == old(self).raw_scans@
                &&& final(self).raw_scans@.last().pose_in_submap == pose_local
                &&& final(self).raw_scans@.last().scan.beams@ == scan.beams@
            },
            !(body_pose_world.finite() && touched && old(self).raw_scans@.len() < MAX_RAW_SCANS)
                ==> final(self).raw_scans@ == old(self).raw_scans@,
    {
        if body_pose_world.is_finite() && touched && self.raw_scans.len() < MAX_RAW_SCANS {
            let ghost before = self.raw_scans@;
            self.raw_scans.push(RawScan { pose_in_submap: pose_local, scan: scan.duplicate() });
            assert(self.raw_scans@.drop_last() =~= before);
        }
    }
}

/// A reading counts exactly if its range and its angle are finite and the range is not
/// below the shortest allowed; its beam then goes from the sensor to where it ended, and
/// the beams keep the order of the readings.
pub proof fn law_readings_become_beams_in_order(
    readings: Seq<Reading>,
    r: Reading,
    sensor: Point,
    min_range: Single,
)
    ensures
        beams_of(Seq::<Reading>::empty(), sensor, min_range).len() == 0,
        r.range.bits % 0x8000_0000 >= 0x7F80_0000 || r.angle.bits % 0x8000_0000 >= 0x7F80_0000
            || r.range.below(min_range) ==> beams_of(readings.push(r), sensor, min_range)
            == beams_of(readings, sensor, min_range),
        r.range.bits % 0x8000_0000 < 0x7F80_0000 && r.angle.bits % 0x8000_0000 < 0x7F80_0000
            && min_range.at_most(r.range) ==> beams_of(readings.push(r), sensor, min_range)
            == beams_of(readings, sensor, min_range).push(Beam { origin: sensor, end: r.end }),
{
    assert(readings.push(r).drop_last() =~= readings);
}

/// A scan with no more beams than allowed stays as it is. A longer one keeps every k-th
/// beam, for the least k that leaves no more than allowed.
pub proof fn law_thinning_keeps_every_kth_beam(beams: Seq<Beam>, max_beams: int, i: int)
    requires
        max_beams >= 1,
    ensures
        beams.len() <= max_beams ==> thinned(beams, max_beams) == beams,
        beams.len() > max_beams ==> {
            let k = stride(beams.len() as int, max_beams);
            &&& k >= 1
            &&& k * max_beams >= beams.len()
            &&& (k - 1) * max_beams < beams.len()
            &&& 0 <= i < thinned(beams, max_beams).len() ==> thinned(beams, max_beams)[i]
                == beams[i * k]
            &&& thinned(beams, max_beams).len() * k >= beams.len()
            &&& (thinned(beams, max_beams).len() - 1) * k < beams.len()
        },
{
    let n = beams.len() as int;
    if n > max_beams {
        let k = stride(n, max_beams);
        lemma_ceiling(n, max_beams);
        vstd::arithmetic::div_mod::lemma_fundamental_div_mod(n - 1, max_beams);
        let q = (n - 1) / max_beams;
        assert(k * max_beams >= n && (k - 1) * max_beams < n) by (nonlinear_arith)
            requires
                k == q + 1,
                n - 1 == max_beams * q + (n - 1) % max_beams,
                0 <= (n - 1) % max_beams < max_beams,
        ;
        lemma_ceiling(n, k);
        vstd::arithmetic::div_mod::lemma_fundamental_div_mod(n - 1, k);
        let p = (n - 1) / k;
        let m = thinned(beams, max_beams).len() as int;
        assert(m == p + 1);
        assert(m * k >= n && (m - 1) * k < n) by (nonlinear_arith)
            requires
                m == p + 1,
                n - 1 == k * p + (n - 1) % k,
                0 <= (n - 1) % k < k,
        ;
    }
}

/// The beams cast are those not shorter than a cell, each once and in order.
pub proof fn law_short_beams_are_not_cast(lengths_sq: Seq<Single>, cell_sq: Single, x: Single)
    ensures
        worth_casting(Seq::<Single>::empty(), cell_sq).len() == 0,
        x.below(cell_sq) ==> worth_casting(lengths_sq.push(x), cell_sq) == worth_casting(
            lengths_sq,
            cell_sq,
        ),
        !x.below(cell_sq) ==> worth_casting(lengths_sq.push(x), cell_sq) == worth_casting(
            lengths_sq,
            cell_sq,
        ).push(lengths_sq.len() as int),
{
    assert(lengths_sq.push(x).drop_last() =~= lengths_sq);
}

/// A scan is inked as often as asked for, and once at least.
pub proof fn law_a_scan_is_inked_at_least_once(passes: int)
    ensures
        passes >= 1 ==> times_inked(passes) == passes,
        passes < 1 ==> times_inked(passes) == 1,
{
}

/// A pose is finite exactly if none of its three parts is infinite or not a number.
pub proof fn law_a_pose_is_finite_in_every_part(p: Pose2)
    ensures
        p.finite() <==> p.x.bits % 0x8000_0000 < 0x7F80_0000 && p.y.bits % 0x8000_0000
            < 0x7F80_0000 && p.yaw.bits % 0x8000_0000 < 0x7F80_0000,
{
}

/// Two poses, and two beams, are equal exactly if every part of one equals that of the
/// other.
pub proof fn law_equality_takes_every_part(p: Pose2, q: Pose2, a: Beam, b: Beam)
    ensures
        p.equals(q) <==> p.x.equals(q.x) && p.y.equals(q.y) && p.yaw.equals(q.yaw),
        a.equals(b) <==> a.origin.x.equals(b.origin.x) && a.origin.y.equals(b.origin.y)
            && a.end.x.equals(b.end.x) && a.end.y.equals(b.end.y),
        p.equals(q) == q.equals(p),
        a.equals(b) == b.equals(a),
{
}

/// The origin is zero in place and in heading.
pub proof fn law_the_origin_is_zero()
    ensures
        Pose2::origin().x.bits == 0,
        Pose2::origin().y.bits == 0,
        Pose2::origin().yaw.bits == 0,
{
}

/// A submap holds something exactly if it remembers a scan.
pub proof fn law_a_submap_is_inked_by_its_scans<G>(map: Submap<G>)
    ensures
        map.inked() <==> map.raw_scans@.len() > 0,
        MAX_RAW_SCANS == 10,
{
}

} // verus!

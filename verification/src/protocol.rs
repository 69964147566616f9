//! The timeline of a staged kidnapping, read back from a session.
//!
//! The robot maps, returns to where it started, sits, is carried off, stands up and
//! goes on. The sit marks the carry: odometry cannot feel being carried, but it
//! cannot miss a sit. What follows is told by the mapper's notes.

use vstd::prelude::*;
use crate::grid::OccupancyGrid;
use crate::ieee::Single;
use crate::mapper::Note;
use crate::relocalize::cell_at;
use crate::relocalize::inside;
use crate::submap::Pose2;

verus! {

/// The bits of the least time, two seconds, that a sit must last to be the carry.
pub const CARRY_BITS: u32 = 0x4000_0000;

/// Where the robot was when it sat down: by the map, and by odometry alone.
#[derive(Debug, Clone, Copy, PartialEq, Eq, Structural)]
pub struct AtSit {
    pub tracked_pose: Pose2,
    pub odom: Pose2,
}

/// The first time that the robot was found again.
#[derive(Debug, Clone, Copy, PartialEq, Eq, Structural)]
pub struct Found {
    pub t: Single,
    pub pose: Pose2,
    pub mean_residual_m: Single,
}

#[derive(Debug, Clone, Copy, PartialEq, Eq)]
pub struct Timeline {
    pub first_odom: Option<Pose2>,
    pub sitting_since: Option<Single>,
    pub at_sit: Option<AtSit>,
    /// When the carry began and ended.
    pub carry: Option<(Single, Single)>,
    pub lost_at: Option<Single>,
    pub found: Option<Found>,
    /// Searches since the carry whose result was rejected.
    pub rejections: u32,
    /// Windows inked since the carry before anything was noticed.
    pub inked_while_wrong: u32,
}

/// Nothing has happened yet.
pub open spec fn unwritten() -> Timeline {
    Timeline {
        first_odom: None,
        sitting_since: None,
        at_sit: None,
        carry: None,
        lost_at: None,
        found: None,
        rejections: 0,
        inked_while_wrong: 0,
    }
}

/// A sit of this length is the carry.
pub open spec fn is_carry(sat_for: Option<Single>) -> bool {
    sat_for matches Some(d) && Single { bits: CARRY_BITS }.below(d)
}

/// The timeline after an odometry reading.
pub open spec fn after_odom(
    l: Timeline,
    t: Single,
    odom: Pose2,
    sitting: bool,
    tracked_pose: Pose2,
    sat_for: Option<Single>,
) -> Timeline {
    let first_odom = match l.first_odom {
        Some(p) => Some(p),
        None => Some(odom),
    };
    if sitting {
        if l.sitting_since is Some {
            Timeline { first_odom, ..l }
        } else {
            Timeline {
                first_odom,
                sitting_since: Some(t),
                at_sit: if l.carry is None {
                    Some(AtSit { tracked_pose, odom })
                } else {
                    l.at_sit
                },
                ..l
            }
        }
    } else {
        Timeline {
            first_odom,
            sitting_since: None,
            carry: match (l.sitting_since, l.carry) {
                (Some(since), None) => if is_carry(sat_for) {
                    Some((since, t))
                } else {
                    None
                },
                _ => l.carry,
            },
            ..l
        }
    }
}

/// The reading begins a sit before the carry: the map as it is now is worth keeping.
pub open spec fn sits_down(l: Timeline, sitting: bool) -> bool {
    sitting && l.sitting_since is None && l.carry is None
}

/// The timeline after a note of the mapper's.
pub open spec fn after_note(l: Timeline, t: Single, note: Note) -> Timeline {
    let carried = l.carry is Some;
    match note {
        Note::WindowIntegrated { .. } => if carried && l.lost_at is None && l.found is None {
            Timeline { inked_while_wrong: (l.inked_while_wrong + 1) as u32, ..l }
        } else {
            l
        },
        Note::LostTracking { .. } => if carried && l.lost_at is None {
            Timeline { lost_at: Some(t), ..l }
        } else {
            l
        },
        Note::SuspectAfterSit => if l.lost_at is None {
            Timeline { lost_at: Some(t), ..l }
        } else {
            l
        },
        Note::Relocalized { pose, mean_residual_m } => if carried && l.found is None {
            Timeline { found: Some(Found { t, pose, mean_residual_m }), ..l }
        } else {
            l
        },
        Note::RelocalizeRejected { .. } => if carried {
            Timeline { rejections: (l.rejections + 1) as u32, ..l }
        } else {
            l
        },
        _ => l,
    }
}

impl Timeline {
    pub fn new() -> (l: Self)
        ensures
            l == unwritten(),
    {
        Timeline {
            first_odom: None,
            sitting_since: None,
            at_sit: None,
            carry: None,
            lost_at: None,
            found: None,
            rejections: 0,
            inked_while_wrong: 0,
        }
    }

    /// Takes in an odometry reading, before the mapper does; `tracked_pose` is where
    /// the map has the robot, and `sat_for` how long it has been sitting, if it has.
    /// The result says that the map as it stands is worth keeping.
    pub fn odom(
        &mut self,
        t: Single,
        odom: Pose2,
        sitting: bool,
        tracked_pose: Pose2,
        sat_for: Option<Single>,
    ) -> (keep: bool)
        ensures
            *final(self) == after_odom(*old(self), t, odom, sitting, tracked_pose, sat_for),
            keep == sits_down(*old(self), sitting),
    {
        if self.first_odom.is_none() {
            self.first_odom = Some(odom);
        }
        if sitting {
            if self.sitting_since.is_some() {
                return false;
            }
            self.sitting_since = Some(t);
            if self.carry.is_some() {
                return false;
            }
            self.at_sit = Some(AtSit { tracked_pose, odom });
            true
        } else {
            let since = self.sitting_since;
            self.sitting_since = None;
            if let Some(began) = since {
                let long = match sat_for {
                    Some(d) => (Single { bits: CARRY_BITS }).lt(d),
                    None => false,
                };
                if self.carry.is_none() && long {
                    self.carry = Some((began, t));
                }
            }
            false
        }
    }

    /// Takes in a note of the mapper's.
    pub fn note(&mut self, t: Single, note: Note)
        requires
            old(self).rejections < u32::MAX,
            old(self).inked_while_wrong < u32::MAX,
        ensures
            *final(self) == after_note(*old(self), t, note),
    {
        let carried = self.carry.is_some();
        match note {
            Note::WindowIntegrated { .. } => {
                if carried && self.lost_at.is_none() && self.found.is_none() {
                    self.inked_while_wrong += 1;
                }
            },
            Note::LostTracking { .. } => {
                if carried && self.lost_at.is_none() {
                    self.lost_at = Some(t);
                }
            },
            Note::SuspectAfterSit => {
                if self.lost_at.is_none() {
                    self.lost_at = Some(t);
                }
            },
            Note::Relocalized { pose, mean_residual_m } => {
                if carried && self.found.is_none() {
                    self.found = Some(Found { t, pose, mean_residual_m });
                }
            },
            Note::RelocalizeRejected { .. } => {
                if carried {
                    self.rejections += 1;
                }
            },
            _ => {},
        }
    }
}

/// There is one carry, one loss and one finding to a timeline: once told, none of them
/// changes.
pub proof fn law_the_first_of_each_counts(
    l: Timeline,
    t: Single,
    odom: Pose2,
    sitting: bool,
    tracked_pose: Pose2,
    sat_for: Option<Single>,
    note: Note,
)
    ensures
        l.carry is Some ==> {
            &&& after_odom(l, t, odom, sitting, tracked_pose, sat_for).carry == l.carry
            &&& after_odom(l, t, odom, sitting, tracked_pose, sat_for).at_sit == l.at_sit
            &&& after_note(l, t, note).carry == l.carry
        },
        l.lost_at is Some ==> after_note(l, t, note).lost_at == l.lost_at,
        l.found is Some ==> after_note(l, t, note).found == l.found,
{
}

/// When the pose came into doubt.
#[derive(Debug, Clone, Copy, PartialEq, Eq, Structural)]
pub enum Doubt {
    /// With the sit itself.
    AtTheSit,
    /// After the robot stood up again.
    Later,
    Never,
}

/// Tells when the pose came into doubt, the carry having ended at `ended`.
pub fn doubt(l: &Timeline, ended: Single) -> (d: Doubt)
    ensures
        d == match l.lost_at {
            Some(t) => if t.at_most(ended) {
                Doubt::AtTheSit
            } else {
                Doubt::Later
            },
            None => Doubt::Never,
        },
{
    match l.lost_at {
        Some(t) => if t.le(ended) {
            Doubt::AtTheSit
        } else {
            Doubt::Later
        },
        None => Doubt::Never,
    }
}

/// Where the ends of a window's beams lie on a map.
#[derive(Debug, Clone, Copy, PartialEq, Eq, Structural)]
pub struct Census {
    pub on_wall: u32,
    pub in_free: u32,
    pub unknown: u32,
    pub off_map: u32,
}

/// Log-odds beyond which, either way, a cell is settled.
pub const SETTLED_FP: i16 = 50;

/// What a beam's end lies on.
#[derive(Debug, Clone, Copy, PartialEq, Eq, Structural)]
pub enum Ground {
    Wall,
    Free,
    Unknown,
    Off,
}

/// What the cell is, on this map.
pub open spec fn ground(cells: Seq<i16>, w: int, h: int, end: (i32, i32)) -> Ground {
    if !inside(end.0 as int, end.1 as int, w, h) {
        Ground::Off
    } else if cells[end.0 * w + end.1] > SETTLED_FP {
        Ground::Wall
    } else if cells[end.0 * w + end.1] < -SETTLED_FP {
        Ground::Free
    } else {
        Ground::Unknown
    }
}

/// How many of the ends lie on such ground.
pub open spec fn count_on(cells: Seq<i16>, w: int, h: int, ends: Seq<(i32, i32)>, g: Ground) -> nat
    decreases ends.len(),
{
    if ends.len() == 0 {
        0
    } else {
        count_on(cells, w, h, ends.drop_last(), g) + if ground(cells, w, h, ends.last()) == g {
            1nat
        } else {
            0nat
        }
    }
}

/// Counts what the ends lie on.
pub fn census(grid: &OccupancyGrid, ends: &[(i32, i32)]) -> (c: Census)
    requires
        grid.well_formed(),
        ends@.len() <= u32::MAX,
    ensures
        c.on_wall == count_on(grid.cells(), grid.w(), grid.h(), ends@, Ground::Wall),
        c.in_free == count_on(grid.cells(), grid.w(), grid.h(), ends@, Ground::Free),
        c.unknown == count_on(grid.cells(), grid.w(), grid.h(), ends@, Ground::Unknown),
        c.off_map == count_on(grid.cells(), grid.w(), grid.h(), ends@, Ground::Off),
{
    let mut c = Census { on_wall: 0, in_free: 0, unknown: 0, off_map: 0 };
    let mut i: usize = 0;
    while i < ends.len()
        invariant
            i <= ends@.len() <= u32::MAX,
            grid.well_formed(),
            c.on_wall == count_on(
                grid.cells(),
                grid.w(),
                grid.h(),
                ends@.take(i as int),
                Ground::Wall,
            ),
            c.in_free == count_on(
                grid.cells(),
                grid.w(),
                grid.h(),
                ends@.take(i as int),
                Ground::Free,
            ),
            c.unknown == count_on(
                grid.cells(),
                grid.w(),
                grid.h(),
                ends@.take(i as int),
                Ground::Unknown,
            ),
            c.off_map == count_on(
                grid.cells(),
                grid.w(),
                grid.h(),
                ends@.take(i as int),
                Ground::Off,
            ),
            c.on_wall + c.in_free + c.unknown + c.off_map == i,
        decreases ends.len() - i,
    {
        assert(ends@.take(i + 1).drop_last() =~= ends@.take(i as int));
        let end = ends[i];
        match cell_at(grid, end) {
            Some(_) => {
                let log: i16 = grid.log_at(end.0 as usize, end.1 as usize);
                if log > SETTLED_FP {
                    c.on_wall += 1;
                } else if log < -SETTLED_FP {
                    c.in_free += 1;
                } else {
                    c.unknown += 1;
                }
            },
            None => {
                c.off_map += 1;
            },
        }
        i += 1;
    }
    assert(ends@.take(i as int) =~= ends@);
    c
}

/// Every beam is counted once.
pub proof fn law_census_counts_every_beam(
    cells: Seq<i16>,
    w: int,
    h: int,
    ends: Seq<(i32, i32)>,
)
    ensures
        count_on(cells, w, h, ends, Ground::Wall) + count_on(cells, w, h, ends, Ground::Free)
            + count_on(cells, w, h, ends, Ground::Unknown) + count_on(
            cells,
            w,
            h,
            ends,
            Ground::Off,
        ) == ends.len(),
    decreases ends.len(),
{
    if ends.len() > 0 {
        law_census_counts_every_beam(cells, w, h, ends.drop_last());
    }
}

/// A sit is the carry exactly if it lasted longer than two seconds.
pub proof fn law_only_a_long_sit_is_the_carry(d: Single)
    ensures
        !is_carry(None),
        0x4000_0000 < d.bits <= 0x7F80_0000 ==> is_carry(Some(d)),
        d.bits <= 0x4000_0000 || d.bits > 0x7F80_0000 ==> !is_carry(Some(d)),
{
}

/// What an odometry reading changes: the first one is kept; a sit that begins is dated,
/// and before the carry the place of it is kept; one that ends is the carry, from when it
/// began until now, if it was long and there was none yet.
pub proof fn law_a_sit_is_dated_and_becomes_the_carry(
    l: Timeline,
    t: Single,
    odom: Pose2,
    sitting: bool,
    tracked_pose: Pose2,
    sat_for: Option<Single>,
)
    ensures
        ({
            let a = after_odom(l, t, odom, sitting, tracked_pose, sat_for);
            &&& l.first_odom is None ==> a.first_odom == Some(odom)
            &&& l.first_odom is Some ==> a.first_odom == l.first_odom
            &&& sitting && l.sitting_since is None ==> a.sitting_since == Some(t)
            &&& sitting && l.sitting_since is Some ==> a.sitting_since == l.sitting_since
                && a.at_sit == l.at_sit
            &&& sitting && l.sitting_since is None && l.carry is None ==> a.at_sit == Some(
                AtSit { tracked_pose, odom },
            )
            &&& !sitting ==> a.sitting_since is None && a.at_sit == l.at_sit
            &&& sitting ==> a.carry == l.carry
            &&& !sitting && l.carry is None ==> (match (l.sitting_since, sat_for) {
                (Some(since), Some(d)) => (0x4000_0000 < d.bits <= 0x7F80_0000 ==> a.carry == Some(
                    (since, t),
                )) && (d.bits <= 0x4000_0000 ==> a.carry is None),
                _ => a.carry is None,
            })
            &&& a.lost_at == l.lost_at
            &&& a.found == l.found
            &&& a.rejections == l.rejections
            &&& a.inked_while_wrong == l.inked_while_wrong
            &&& sits_down(l, sitting) <==> sitting && l.sitting_since is None && l.carry is None
        }),
{
}

/// What a note changes after the carry: the first loss and the first finding are dated,
/// rejections are counted, and windows inked before either are counted as wrong. Before
/// the carry only a suspicion at the sit counts.
pub proof fn law_notes_tell_the_loss_and_the_finding(l: Timeline, t: Single, note: Note)
    requires
        l.rejections < u32::MAX,
        l.inked_while_wrong < u32::MAX,
    ensures
        ({
            let a = after_note(l, t, note);
            let carried = l.carry is Some;
            &&& carried && note is LostTracking && l.lost_at is None ==> a.lost_at == Some(t)
            &&& note is SuspectAfterSit && l.lost_at is None ==> a.lost_at == Some(t)
            &&& !(note is LostTracking) && !(note is SuspectAfterSit) ==> a.lost_at == l.lost_at
            &&& !carried && note is LostTracking ==> a.lost_at == l.lost_at
            &&& note matches Note::Relocalized { pose, mean_residual_m } ==> carried && l.found is None
                ==> a.found == Some(Found { t, pose, mean_residual_m })
            &&& !carried || !(note is Relocalized) ==> a.found == l.found
            &&& carried && note is RelocalizeRejected ==> a.rejections == l.rejections + 1
            &&& !carried || !(note is RelocalizeRejected) ==> a.rejections == l.rejections
            &&& carried && note is WindowIntegrated && l.lost_at is None && l.found is None
                ==> a.inked_while_wrong == l.inked_while_wrong + 1
            &&& !carried || !(note is WindowIntegrated) || l.lost_at is Some || l.found is Some
                ==> a.inked_while_wrong == l.inked_while_wrong
            &&& a.carry == l.carry
            &&& a.at_sit == l.at_sit
            &&& a.first_odom == l.first_odom
            &&& a.sitting_since == l.sitting_since
        }),
{
}

/// A timeline starts with nothing on it.
pub proof fn law_a_timeline_starts_empty()
    ensures
        unwritten().carry is None,
        unwritten().lost_at is None,
        unwritten().found is None,
        unwritten().first_odom is None,
        unwritten().sitting_since is None,
        unwritten().at_sit is None,
        unwritten().rejections == 0,
        unwritten().inked_while_wrong == 0,
{
}

/// A cell is a wall with log-odds above fifty, free with less than minus fifty, and
/// unsettled between; outside the grid there is nothing.
pub proof fn law_ground_is_settled_by_log_odds(
    cells: Seq<i16>,
    w: int,
    h: int,
    ends: Seq<(i32, i32)>,
    end: (i32, i32),
)
    ensures
        end.0 < 0 || end.1 < 0 || end.0 >= h || end.1 >= w ==> ground(cells, w, h, end)
            == Ground::Off,
        0 <= end.0 < h && 0 <= end.1 < w ==> {
            let v = cells[end.0 * w + end.1];
            &&& v > 50 ==> ground(cells, w, h, end) == Ground::Wall
            &&& v < -50 ==> ground(cells, w, h, end) == Ground::Free
            &&& -50 <= v <= 50 ==> ground(cells, w, h, end) == Ground::Unknown
        },
        count_on(cells, w, h, ends.push(end), ground(cells, w, h, end)) == count_on(
            cells,
            w,
            h,
            ends,
            ground(cells, w, h, end),
        ) + 1,
{
    assert(ends.push(end).drop_last() =~= ends);
}

} // verus!

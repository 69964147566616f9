//! Many noisy frames in, one vetted scan out.
//!
//! A stop gives the mapper a window of frames. When the window closes, only the
//! beams survive whose end was hit by enough different frames: a wall is confirmed
//! by every frame that looks at it, while a walking leg is somewhere else each time.
//! The survivors merge into one scan in the body frame of the window's middle pose.

use vstd::prelude::*;
use std::collections::HashMap;
use crate::ieee::Single;
use crate::submap::{Beam, Pose2, Scan};

verus! {

#[derive(Debug, Clone, Copy, PartialEq, Eq, Structural)]
pub struct AccumulatorConfig {
    /// Size of the cells that ends are counted in, in metres.
    pub cell_m: Single,
    /// How many frames must hit a cell before beams that end there count.
    pub min_frames: u32,
    /// Longer beams are dropped: there the sensor's noise costs more than the
    /// coverage buys.
    pub max_range_m: Single,
    /// A window with fewer frames has nothing to vote with, and passes as it is.
    pub min_window_frames: usize,
}

/// Five centimetres, three frames, two metres, six frames.
pub open spec fn stock_config() -> AccumulatorConfig {
    AccumulatorConfig {
        cell_m: Single { bits: 0x3D4C_CCCD },
        min_frames: 3,
        max_range_m: Single { bits: 0x4000_0000 },
        min_window_frames: 6,
    }
}

impl Default for AccumulatorConfig {
    fn default() -> (cfg: Self)
        ensures
            cfg == stock_config(),
    {
        AccumulatorConfig {
            cell_m: Single { bits: 0x3D4C_CCCD },
            min_frames: 3,
            max_range_m: Single { bits: 0x4000_0000 },
            min_window_frames: 6,
        }
    }
}

/// A beam of a window: its squared length, the world cell it ends in, and the beam
/// itself in the body frame of the window's middle pose.
#[derive(Debug, Clone, Copy)]
pub struct Sight {
    pub length_sq: Single,
    pub cell: (i32, i32),
    pub beam: Beam,
}

/// The beam is not too long.
pub open spec fn in_range(s: Sight, max_range_sq: Single) -> bool {
    !max_range_sq.below(s.length_sq)
}

/// Some beam of the frame, of those in range, ends in the cell.
pub open spec fn hits(frame: Seq<Sight>, max_range_sq: Single, cell: (i32, i32)) -> bool {
    exists|k: int|
        0 <= k < frame.len() && in_range(#[trigger] frame[k], max_range_sq) && frame[k].cell
            == cell
}

/// How many of the frames hit a cell.
pub open spec fn votes(frames: Seq<Vec<Sight>>, max_range_sq: Single, cell: (i32, i32)) -> nat
    decreases frames.len(),
{
    if frames.len() == 0 {
        0
    } else {
        votes(frames.drop_last(), max_range_sq, cell) + if hits(
            frames.last()@,
            max_range_sq,
            cell,
        ) {
            1nat
        } else {
            0nat
        }
    }
}

/// The cell has been hit, and by enough frames.
pub open spec fn confirmed(
    frames: Seq<Vec<Sight>>,
    max_range_sq: Single,
    min_frames: u32,
    cell: (i32, i32),
) -> bool {
    votes(frames, max_range_sq, cell) > 0 && votes(frames, max_range_sq, cell) >= min_frames
}

/// The cell or one around it has been confirmed: a wall on the line between two cells
/// splits its votes between them.
pub open spec fn vouched(
    frames: Seq<Vec<Sight>>,
    max_range_sq: Single,
    min_frames: u32,
    cell: (i32, i32),
) -> bool {
    exists|i: i32, j: i32|
        cell.0 - 1 <= i <= cell.0 + 1 && cell.1 - 1 <= j <= cell.1 + 1 && #[trigger] confirmed(
            frames,
            max_range_sq,
            min_frames,
            (i, j),
        )
}

/// The beam survives the window.
pub open spec fn survives(
    cfg: AccumulatorConfig,
    frames: Seq<Vec<Sight>>,
    max_range_sq: Single,
    s: Sight,
) -> bool {
    &&& in_range(s, max_range_sq)
    &&& frames.len() >= cfg.min_window_frames ==> vouched(
        frames,
        max_range_sq,
        cfg.min_frames,
        s.cell,
    )
}

/// The survivors of some beams, in order.
pub open spec fn survivors(
    cfg: AccumulatorConfig,
    frames: Seq<Vec<Sight>>,
    max_range_sq: Single,
    some: Seq<Sight>,
) -> Seq<Beam>
    decreases some.len(),
{
    if some.len() == 0 {
        Seq::empty()
    } else {
        let rest = survivors(cfg, frames, max_range_sq, some.drop_last());
        if survives(cfg, frames, max_range_sq, some.last()) {
            rest.push(some.last().beam)
        } else {
            rest
        }
    }
}

/// The survivors of the first `n` frames of a window, in order.
pub open spec fn composite(
    cfg: AccumulatorConfig,
    frames: Seq<Vec<Sight>>,
    max_range_sq: Single,
    n: int,
) -> Seq<Beam>
    decreases n,
{
    if n <= 0 {
        Seq::empty()
    } else {
        composite(cfg, frames, max_range_sq, n - 1) + survivors(
            cfg,
            frames,
            max_range_sq,
            frames[n - 1]@,
        )
    }
}

/// One number per cell.
pub open spec fn key(cell: (i32, i32)) -> u64 {
    ((cell.0 + 0x8000_0000) * 0x1_0000_0000 + (cell.1 + 0x8000_0000)) as u64
}

proof fn lemma_keys_differ(a: (i32, i32), b: (i32, i32))
    requires
        key(a) == key(b),
    ensures
        a == b,
{
}

fn key_of(cell: (i32, i32)) -> (k: u64)
    ensures
        k == key(cell),
{
    let i: u64 = (cell.0 as i64 + 0x8000_0000) as u64;
    let j: u64 = (cell.1 as i64 + 0x8000_0000) as u64;
    i * 0x1_0000_0000 + j
}

/// The tally holds, for each cell, how many of the first `f` frames and of the first
/// `k` beams of the next hit it, and the last frame that did.
spec fn tallied(
    tally: Map<u64, (usize, usize)>,
    frames: Seq<Vec<Sight>>,
    max_range_sq: Single,
    f: int,
    k: int,
) -> bool {
    forall|cell: (i32, i32)|
        #![trigger tally.contains_key(key(cell))]
        {
            let here = f < frames.len() && hits(frames[f]@.take(k), max_range_sq, cell);
            let n = votes(frames.take(f), max_range_sq, cell) + if here {
                1nat
            } else {
                0nat
            };
            &&& tally.contains_key(key(cell)) <==> n > 0
            &&& tally.contains_key(key(cell)) ==> {
                &&& tally[key(cell)].0 == n
                &&& tally[key(cell)].1 <= f
                &&& tally[key(cell)].1 == f <==> here
            }
        }
}

proof fn lemma_votes_bounded(frames: Seq<Vec<Sight>>, max_range_sq: Single, cell: (i32, i32))
    ensures
        votes(frames, max_range_sq, cell) <= frames.len(),
    decreases frames.len(),
{
    if frames.len() > 0 {
        lemma_votes_bounded(frames.drop_last(), max_range_sq, cell);
    }
}

proof fn lemma_hits_one_more(frame: Seq<Sight>, max_range_sq: Single, k: int, cell: (i32, i32))
    requires
        0 <= k < frame.len(),
    ensures
        hits(frame.take(k + 1), max_range_sq, cell) <==> hits(frame.take(k), max_range_sq, cell)
            || in_range(frame[k], max_range_sq) && frame[k].cell == cell,
{
    let a = frame.take(k);
    let b = frame.take(k + 1);
    if hits(a, max_range_sq, cell) {
        let i = choose|i: int|
            0 <= i < a.len() && in_range(#[trigger] a[i], max_range_sq) && a[i].cell == cell;
        assert(b[i] == a[i]);
    }
    if in_range(frame[k], max_range_sq) && frame[k].cell == cell {
        assert(b[k] == frame[k]);
    }
    if hits(b, max_range_sq, cell) {
        let i = choose|i: int|
            0 <= i < b.len() && in_range(#[trigger] b[i], max_range_sq) && b[i].cell == cell;
        if i < k {
            assert(a[i] == b[i]);
        }
    }
}

/// Counts one beam.
fn count(
    tally: &mut HashMap<u64, (usize, usize)>,
    frames: &[Vec<Sight>],
    max_range_sq: Single,
    f: usize,
    k: usize,
)
    requires
        f < frames@.len(),
        k < frames@[f as int]@.len(),
        tallied(old(tally)@, frames@, max_range_sq, f as int, k as int),
    ensures
        tallied(final(tally)@, frames@, max_range_sq, f as int, k + 1),
{
    broadcast use vstd::std_specs::hash::group_hash_axioms;

    let s = frames[f][k];
    let ghost before = tally@;
    let ghost frame = frames@[f as int]@;
    let n_frames: usize = frames.len();
    if !max_range_sq.lt(s.length_sq) {
        let id: u64 = key_of(s.cell);
        assert(before.contains_key(key(s.cell)) || !before.contains_key(key(s.cell)));
        let seen: Option<(usize, usize)> = match tally.get(&id) {
            Some(v) => Some(*v),
            None => None,
        };
        match seen {
            Some(v) => {
                if v.1 != f {
                    proof {
                        lemma_votes_bounded(frames@.take(f as int), max_range_sq, s.cell);
                    }
                    tally.insert(id, (v.0 + 1, f));
                }
            },
            None => {
                tally.insert(id, (1, f));
            },
        }
    }
    proof {
        assert forall|cell: (i32, i32)|
            #![trigger tally@.contains_key(key(cell))]
            {
                let here = hits(frame.take(k + 1), max_range_sq, cell);
                let n = votes(frames@.take(f as int), max_range_sq, cell) + if here {
                    1nat
                } else {
                    0nat
                };
                &&& tally@.contains_key(key(cell)) <==> n > 0
                &&& tally@.contains_key(key(cell)) ==> {
                    &&& tally@[key(cell)].0 == n
                    &&& tally@[key(cell)].1 <= f
                    &&& tally@[key(cell)].1 == f <==> here
                }
            } by {
            lemma_hits_one_more(frame, max_range_sq, k as int, cell);
            assert(before.contains_key(key(cell)) || !before.contains_key(key(cell)));
            if key(cell) == key(s.cell) {
                lemma_keys_differ(cell, s.cell);
            }
        }
    }
}

/// Counts, for each cell, the frames that hit it.
fn tally_votes(frames: &[Vec<Sight>], max_range_sq: Single) -> (tally: HashMap<
    u64,
    (usize, usize),
>)
    ensures
        tallied(tally@, frames@, max_range_sq, frames@.len() as int, 0),
{
    broadcast use vstd::std_specs::hash::group_hash_axioms;

    let mut tally: HashMap<u64, (usize, usize)> = HashMap::new();
    let mut f: usize = 0;
    proof {
        assert forall|cell: (i32, i32)| !hits(Seq::<Sight>::empty(), max_range_sq, cell) by {}
        if frames@.len() > 0 {
            assert(frames@[0]@.take(0) =~= Seq::<Sight>::empty());
        }
        assert(frames@.take(0) =~= Seq::<Vec<Sight>>::empty());
        assert(tallied(tally@, frames@, max_range_sq, 0, 0));
    }
    while f < frames.len()
        invariant
            f <= frames@.len(),
            tallied(tally@, frames@, max_range_sq, f as int, 0),
        decreases frames.len() - f,
    {
        let mut k: usize = 0;
        while k < frames[f].len()
            invariant
                f < frames@.len(),
                k <= frames@[f as int]@.len(),
                tallied(tally@, frames@, max_range_sq, f as int, k as int),
            decreases frames@[f as int]@.len() - k,
        {
            count(&mut tally, frames, max_range_sq, f, k);
            k += 1;
        }
        proof {
            let frame = frames@[f as int]@;
            assert(frame.take(k as int) =~= frame);
            assert(frames@.take(f + 1).drop_last() =~= frames@.take(f as int));
            assert(frames@.take(f + 1).last() == frames@[f as int]);
            if f + 1 < frames@.len() {
                assert(frames@[f + 1]@.take(0) =~= Seq::<Sight>::empty());
            }
            assert forall|cell: (i32, i32)|
                #![trigger tally@.contains_key(key(cell))]
                {
                    let n = votes(frames@.take(f + 1), max_range_sq, cell);
                    &&& tally@.contains_key(key(cell)) <==> n > 0
                    &&& tally@.contains_key(key(cell)) ==> {
                        &&& tally@[key(cell)].0 == n
                        &&& tally@[key(cell)].1 <= f
                    }
                } by {}
        }
        f += 1;
    }
    tally
}

/// Whether enough frames hit the cell or one around it.
fn is_vouched(
    tally: &HashMap<u64, (usize, usize)>,
    frames: &[Vec<Sight>],
    max_range_sq: Single,
    min_frames: u32,
    cell: (i32, i32),
) -> (r: bool)
    requires
        tallied(tally@, frames@, max_range_sq, frames@.len() as int, 0),
    ensures
        r == vouched(frames@, max_range_sq, min_frames, cell),
{
    broadcast use vstd::std_specs::hash::group_hash_axioms;

    assert(frames@.take(frames@.len() as int) =~= frames@);
    let mut di: i64 = -1;
    while di <= 1
        invariant
            tallied(tally@, frames@, max_range_sq, frames@.len() as int, 0),
            frames@.take(frames@.len() as int) == frames@,
            -1 <= di <= 2,
            forall|a: i32, b: i32|
                cell.0 - 1 <= a < cell.0 + di && cell.1 - 1 <= b <= cell.1 + 1
                    ==> !#[trigger] confirmed(frames@, max_range_sq, min_frames, (a, b)),
        decreases 2 - di,
    {
        let mut dj: i64 = -1;
        while dj <= 1
            invariant
                tallied(tally@, frames@, max_range_sq, frames@.len() as int, 0),
                frames@.take(frames@.len() as int) == frames@,
                -1 <= di <= 1,
                -1 <= dj <= 2,
                forall|a: i32, b: i32|
                    cell.0 - 1 <= a < cell.0 + di && cell.1 - 1 <= b <= cell.1 + 1
                        ==> !#[trigger] confirmed(frames@, max_range_sq, min_frames, (a, b)),
                forall|a: i32, b: i32|
                    a == cell.0 + di && cell.1 - 1 <= b < cell.1 + dj ==> !#[trigger] confirmed(
                        frames@,
                        max_range_sq,
                        min_frames,
                        (a, b),
                    ),
            decreases 2 - dj,
        {
            let i: i64 = cell.0 as i64 + di;
            let j: i64 = cell.1 as i64 + dj;
            let is_a_cell = i32::MIN as i64 <= i && i <= i32::MAX as i64 && i32::MIN as i64 <= j
                && j <= i32::MAX as i64;
            if is_a_cell {
                let near: (i32, i32) = (i as i32, j as i32);
                let id: u64 = key_of(near);
                let n: usize = match tally.get(&id) {
                    Some(v) => v.0,
                    None => 0,
                };
                assert(tally@.contains_key(key(near)) || !tally@.contains_key(key(near)));
                assert(n == votes(frames@, max_range_sq, near));
                if n > 0 && n as u64 >= min_frames as u64 {
                    assert(confirmed(frames@, max_range_sq, min_frames, (near.0, near.1)));
                    return true;
                }
            }
            dj += 1;
        }
        di += 1;
    }
    false
}

pub struct WindowAccumulator {
    cfg: AccumulatorConfig,
    frames: Vec<(Pose2, Scan)>,
}

/// The sights are those of the frames: one per beam.
pub open spec fn seen_from(frames: Seq<(Pose2, Scan)>, sights: Seq<Vec<Sight>>) -> bool {
    &&& sights.len() == frames.len()
    &&& forall|f: int|
        0 <= f < frames.len() ==> (#[trigger] sights[f])@.len() == frames[f].1.beams@.len()
}

impl WindowAccumulator {
    pub closed spec fn settings(&self) -> AccumulatorConfig {
        self.cfg
    }

    /// The frames of the open window.
    pub closed spec fn held(&self) -> Seq<(Pose2, Scan)> {
        self.frames@
    }

    pub fn new(cfg: AccumulatorConfig) -> (acc: Self)
        ensures
            acc.settings() == cfg,
            acc.held() == Seq::<(Pose2, Scan)>::empty(),
    {
        WindowAccumulator { cfg, frames: Vec::new() }
    }

    pub fn config(&self) -> (cfg: AccumulatorConfig)
        ensures
            cfg == self.settings(),
    {
        self.cfg
    }

    /// Adds a frame taken at a pose.
    pub fn push(&mut self, pose: Pose2, scan: Scan)
        ensures
            final(self).settings() == old(self).settings(),
            final(self).held() == old(self).held().push((pose, scan)),
    {
        self.frames.push((pose, scan));
    }

    pub fn len(&self) -> (n: usize)
        ensures
            n == self.held().len(),
    {
        self.frames.len()
    }

    pub fn is_empty(&self) -> (r: bool)
        ensures
            r == (self.held().len() == 0),
    {
        self.frames.len() == 0
    }

    /// The frames of the open window, for the caller to take their sights.
    pub fn frames(&self) -> (frames: &[(Pose2, Scan)])
        ensures
            frames@ == self.held(),
    {
        self.frames.as_slice()
    }

    /// The pose that the window's scan is expressed at: that of its middle frame.
    pub fn middle(&self) -> (pose: Option<Pose2>)
        ensures
            pose == middle_of(self.held()),
    {
        if self.frames.len() == 0 {
            None
        } else {
            Some(self.frames[self.frames.len() / 2].0)
        }
    }

    /// Closes the window: the beams that enough frames vouch for, and the pose they
    /// are expressed at; or `None` when no beam is left. Either way the window is
    /// empty afterwards.
    pub fn finish(&mut self, sights: &[Vec<Sight>], max_range_sq: Single) -> (out: Option<
        (Pose2, Scan),
    >)
        requires
            seen_from(old(self).held(), sights@),
        ensures
            final(self).settings() == old(self).settings(),
            final(self).held() == Seq::<(Pose2, Scan)>::empty(),
            ({
                let beams = composite(
                    old(self).settings(),
                    sights@,
                    max_range_sq,
                    sights@.len() as int,
                );
                &&& out is Some <==> beams.len() > 0
                &&& out matches Some(r) ==> Some(r.0) == middle_of(old(self).held())
                    && r.1.beams@ == beams
            }),
    {
        let rep = self.middle();
        self.frames = Vec::new();
        let vote_enabled = sights.len() >= self.cfg.min_window_frames;
        let tally = tally_votes(sights, max_range_sq);
        let mut beams: Vec<Beam> = Vec::new();
        let mut f: usize = 0;
        while f < sights.len()
            invariant
                f <= sights@.len(),
                seen_from(old(self).held(), sights@),
                self.cfg == old(self).settings(),
                vote_enabled == (sights@.len() >= self.cfg.min_window_frames),
                tallied(tally@, sights@, max_range_sq, sights@.len() as int, 0),
                beams@ == composite(self.cfg, sights@, max_range_sq, f as int),
            decreases sights.len() - f,
        {
            let mut k: usize = 0;
            let ghost done = beams@;
            assert(sights@[f as int]@.take(0) =~= Seq::<Sight>::empty());
            while k < sights[f].len()
                invariant
                    f < sights@.len(),
                    k <= sights@[f as int]@.len(),
                    seen_from(old(self).held(), sights@),
                    self.cfg == old(self).settings(),
                    vote_enabled == (sights@.len() >= self.cfg.min_window_frames),
                    tallied(tally@, sights@, max_range_sq, sights@.len() as int, 0),
                    beams@ =~= done + survivors(
                        self.cfg,
                        sights@,
                        max_range_sq,
                        sights@[f as int]@.take(k as int),
                    ),
                decreases sights@[f as int]@.len() - k,
            {
                let s = sights[f][k];
                assert(sights@[f as int]@.take(k + 1).drop_last()
                    =~= sights@[f as int]@.take(k as int));
                if !max_range_sq.lt(s.length_sq) {
                    if !vote_enabled || is_vouched(
                        &tally,
                        sights,
                        max_range_sq,
                        self.cfg.min_frames,
                        s.cell,
                    ) {
                        beams.push(s.beam);
                    }
                }
                k += 1;
            }
            assert(sights@[f as int]@.take(k as int) =~= sights@[f as int]@);
            f += 1;
        }
        match rep {
            Some(pose) => if beams.len() > 0 {
                Some((pose, Scan { beams }))
            } else {
                None
            },
            None => None,
        }
    }
}

/// The pose of the frame in the middle of a window.
pub open spec fn middle_of(frames: Seq<(Pose2, Scan)>) -> Option<Pose2> {
    if frames.len() == 0 {
        None
    } else {
        Some(frames[frames.len() as int / 2].0)
    }
}

/// A beam that every frame of a window sees survives it, if it is in range and the
/// window has as many frames as it takes.
pub proof fn law_persistent_returns_survive(
    cfg: AccumulatorConfig,
    frames: Seq<Vec<Sight>>,
    max_range_sq: Single,
    s: Sight,
)
    requires
        in_range(s, max_range_sq),
        frames.len() > 0,
        frames.len() >= cfg.min_frames,
        forall|f: int| 0 <= f < frames.len() ==> hits((#[trigger] frames[f])@, max_range_sq, s.cell),
    ensures
        survives(cfg, frames, max_range_sq, s),
{
    lemma_all_vote(frames, max_range_sq, s.cell);
    assert(confirmed(frames, max_range_sq, cfg.min_frames, (s.cell.0, s.cell.1)));
}

proof fn lemma_all_vote(frames: Seq<Vec<Sight>>, max_range_sq: Single, cell: (i32, i32))
    requires
        forall|f: int| 0 <= f < frames.len() ==> hits((#[trigger] frames[f])@, max_range_sq, cell),
    ensures
        votes(frames, max_range_sq, cell) == frames.len(),
    decreases frames.len(),
{
    if frames.len() > 0 {
        assert forall|f: int| 0 <= f < frames.drop_last().len() implies hits(
            (#[trigger] frames.drop_last()[f])@,
            max_range_sq,
            cell,
        ) by {
            assert(frames.drop_last()[f] == frames[f]);
        }
        lemma_all_vote(frames.drop_last(), max_range_sq, cell);
    }
}

/// A beam that ends where fewer frames than it takes see anything, there or right
/// next to it, does not survive a window long enough to vote.
pub proof fn law_transients_die(
    cfg: AccumulatorConfig,
    frames: Seq<Vec<Sight>>,
    max_range_sq: Single,
    s: Sight,
)
    requires
        frames.len() >= cfg.min_window_frames,
        forall|i: i32, j: i32|
            s.cell.0 - 1 <= i <= s.cell.0 + 1 && s.cell.1 - 1 <= j <= s.cell.1 + 1
                ==> #[trigger] votes(frames, max_range_sq, (i, j)) < cfg.min_frames,
    ensures
        !survives(cfg, frames, max_range_sq, s),
{
}

/// A frame votes for a cell exactly if one of its beams that is not too long ends there,
/// and once however many do.
pub proof fn law_a_frame_votes_once_for_a_cell(
    frames: Seq<Vec<Sight>>,
    frame: Vec<Sight>,
    max_range_sq: Single,
    cell: (i32, i32),
    k: int,
)
    ensures
        votes(Seq::<Vec<Sight>>::empty(), max_range_sq, cell) == 0,
        votes(frames.push(frame), max_range_sq, cell) <= votes(frames, max_range_sq, cell) + 1,
        0 <= k < frame@.len() && frame@[k].cell == cell && !max_range_sq.below(frame@[k].length_sq)
            ==> votes(frames.push(frame), max_range_sq, cell) == votes(frames, max_range_sq, cell)
            + 1,
        (forall|i: int|
            0 <= i < frame@.len() ==> (#[trigger] frame@[i]).cell != cell || max_range_sq.below(
                frame@[i].length_sq,
            )) ==> votes(frames.push(frame), max_range_sq, cell) == votes(
            frames,
            max_range_sq,
            cell,
        ),
{
    assert(frames.push(frame).drop_last() =~= frames);
    if 0 <= k < frame@.len() && frame@[k].cell == cell && !max_range_sq.below(
        frame@[k].length_sq,
    ) {
        assert(in_range(frame@[k], max_range_sq));
    }
    if forall|i: int|
        0 <= i < frame@.len() ==> (#[trigger] frame@[i]).cell != cell || max_range_sq.below(
            frame@[i].length_sq,
        ) {
        assert(!hits(frame@, max_range_sq, cell));
    }
}

/// A beam that is too long never survives. In a window too short to vote every other beam
/// does; in a longer one, exactly those that end in a cell, or next to one, side by side
/// or corner to corner, that as many frames as it takes have hit.
pub proof fn law_a_beam_survives_by_its_votes(
    cfg: AccumulatorConfig,
    frames: Seq<Vec<Sight>>,
    max_range_sq: Single,
    s: Sight,
    i: i32,
    j: i32,
)
    ensures
        max_range_sq.below(s.length_sq) ==> !survives(cfg, frames, max_range_sq, s),
        !max_range_sq.below(s.length_sq) && frames.len() < cfg.min_window_frames ==> survives(
            cfg,
            frames,
            max_range_sq,
            s,
        ),
        !max_range_sq.below(s.length_sq) && s.cell.0 - 1 <= i <= s.cell.0 + 1 && s.cell.1 - 1 <= j
            <= s.cell.1 + 1 && votes(frames, max_range_sq, (i, j)) > 0 && votes(
            frames,
            max_range_sq,
            (i, j),
        ) >= cfg.min_frames ==> survives(cfg, frames, max_range_sq, s),
        frames.len() >= cfg.min_window_frames && (forall|a: i32, b: i32|
            s.cell.0 - 1 <= a <= s.cell.0 + 1 && s.cell.1 - 1 <= b <= s.cell.1 + 1
                ==> #[trigger] votes(frames, max_range_sq, (a, b)) < cfg.min_frames) ==> !survives(
            cfg,
            frames,
            max_range_sq,
            s,
        ),
{
    if s.cell.0 - 1 <= i <= s.cell.0 + 1 && s.cell.1 - 1 <= j <= s.cell.1 + 1 && votes(
        frames,
        max_range_sq,
        (i, j),
    ) > 0 && votes(frames, max_range_sq, (i, j)) >= cfg.min_frames {
        assert(confirmed(frames, max_range_sq, cfg.min_frames, (i, j)));
    }
}

/// The survivors of a frame keep their order, and each is the beam it was.
pub proof fn law_survivors_keep_their_order(
    cfg: AccumulatorConfig,
    frames: Seq<Vec<Sight>>,
    max_range_sq: Single,
    some: Seq<Sight>,
    s: Sight,
)
    ensures
        survivors(cfg, frames, max_range_sq, Seq::<Sight>::empty()).len() == 0,
        survives(cfg, frames, max_range_sq, s) ==> survivors(
            cfg,
            frames,
            max_range_sq,
            some.push(s),
        ) == survivors(cfg, frames, max_range_sq, some).push(s.beam),
        !survives(cfg, frames, max_range_sq, s) ==> survivors(
            cfg,
            frames,
            max_range_sq,
            some.push(s),
        ) == survivors(cfg, frames, max_range_sq, some),
{
    assert(some.push(s).drop_last() =~= some);
}

/// The scan of a window is made of the survivors of its frames, one frame after the other:
/// a beam is in it exactly if it survived in one of them.
pub proof fn law_a_window_holds_every_survivor(
    cfg: AccumulatorConfig,
    frames: Seq<Vec<Sight>>,
    max_range_sq: Single,
    n: int,
    beam: Beam,
)
    requires
        0 <= n <= frames.len(),
    ensures
        composite(cfg, frames, max_range_sq, 0).len() == 0,
        composite(cfg, frames, max_range_sq, n).contains(beam) <==> exists|f: int, k: int|
            #![trigger frames[f]@[k]]
            0 <= f < n && 0 <= k < frames[f]@.len() && survives(
                cfg,
                frames,
                max_range_sq,
                frames[f]@[k],
            ) && frames[f]@[k].beam == beam,
    decreases n,
{
    if n > 0 {
        law_a_window_holds_every_survivor(cfg, frames, max_range_sq, n - 1, beam);
        let front = composite(cfg, frames, max_range_sq, n - 1);
        let last = survivors(cfg, frames, max_range_sq, frames[n - 1]@);
        let all = composite(cfg, frames, max_range_sq, n);
        lemma_survivors_contain(cfg, frames, max_range_sq, frames[n - 1]@, beam);
        if all.contains(beam) {
            let p = choose|p: int| 0 <= p < all.len() && all[p] == beam;
            if p < front.len() {
                assert(front[p] == beam);
            } else {
                assert(last[p - front.len()] == beam);
                let k = choose|k: int|
                    #![trigger frames[n - 1]@[k]]
                    0 <= k < frames[n - 1]@.len() && survives(
                        cfg,
                        frames,
                        max_range_sq,
                        frames[n - 1]@[k],
                    ) && frames[n - 1]@[k].beam == beam;
                assert(frames[n - 1]@[k].beam == beam);
            }
        }
        if exists|f: int, k: int|
            #![trigger frames[f]@[k]]
            0 <= f < n && 0 <= k < frames[f]@.len() && survives(
                cfg,
                frames,
                max_range_sq,
                frames[f]@[k],
            ) && frames[f]@[k].beam == beam {
            let (f, k) = choose|f: int, k: int|
                #![trigger frames[f]@[k]]
                0 <= f < n && 0 <= k < frames[f]@.len() && survives(
                    cfg,
                    frames,
                    max_range_sq,
                    frames[f]@[k],
                ) && frames[f]@[k].beam == beam;
            if f < n - 1 {
                assert(front.contains(beam));
                let p = choose|p: int| 0 <= p < front.len() && front[p] == beam;
                assert(all[p] == beam);
            } else {
                assert(frames[n - 1]@[k].beam == beam);
                assert(last.contains(beam));
                let p = choose|p: int| 0 <= p < last.len() && last[p] == beam;
                assert(all[front.len() + p] == beam);
            }
        }
    }
}

proof fn lemma_survivors_contain(
    cfg: AccumulatorConfig,
    frames: Seq<Vec<Sight>>,
    max_range_sq: Single,
    some: Seq<Sight>,
    beam: Beam,
)
    ensures
        survivors(cfg, frames, max_range_sq, some).contains(beam) <==> exists|k: int|
            #![trigger some[k]]
            0 <= k < some.len() && survives(cfg, frames, max_range_sq, some[k]) && some[k].beam
                == beam,
    decreases some.len(),
{
    if some.len() > 0 {
        let front = some.drop_last();
        lemma_survivors_contain(cfg, frames, max_range_sq, front, beam);
        let rest = survivors(cfg, frames, max_range_sq, front);
        let all = survivors(cfg, frames, max_range_sq, some);
        let last = some.len() - 1;
        if all.contains(beam) {
            let p = choose|p: int| 0 <= p < all.len() && all[p] == beam;
            if p < rest.len() {
                assert(rest[p] == beam);
                let k = choose|k: int|
                    #![trigger front[k]]
                    0 <= k < front.len() && survives(cfg, frames, max_range_sq, front[k])
                        && front[k].beam == beam;
                assert(some[k] == front[k]);
            } else {
                assert(some[last].beam == beam);
            }
        }
        if exists|k: int|
            #![trigger some[k]]
            0 <= k < some.len() && survives(cfg, frames, max_range_sq, some[k]) && some[k].beam
                == beam {
            let k = choose|k: int|
                #![trigger some[k]]
                0 <= k < some.len() && survives(cfg, frames, max_range_sq, some[k])
                    && some[k].beam == beam;
            if k < last {
                assert(front[k] == some[k]);
                assert(rest.contains(beam));
                let p = choose|p: int| 0 <= p < rest.len() && rest[p] == beam;
                assert(all[p] == beam);
            } else {
                assert(all.last() == beam);
            }
        }
    } else {
        assert(survivors(cfg, frames, max_range_sq, some).len() == 0);
    }
}

/// A window is expressed at the pose of its middle frame: as many frames come before it as
/// after it, or one more.
pub proof fn law_the_middle_frame_is_in_the_middle(frames: Seq<(Pose2, Scan)>, k: int)
    ensures
        frames.len() == 0 <==> middle_of(frames) is None,
        0 <= k < frames.len() && (2 * k == frames.len() || 2 * k + 1 == frames.len()) ==> middle_of(
            frames,
        ) == Some(frames[k].0),
{
}

/// With the stock settings a window of six frames or more keeps only what three frames
/// saw, one of the cells around included; a shorter one keeps every beam in range.
pub proof fn law_stock_votes(frames: Seq<Vec<Sight>>, max_range_sq: Single, s: Sight)
    ensures
        frames.len() < 6 ==> (survives(stock_config(), frames, max_range_sq, s) <==> in_range(
            s,
            max_range_sq,
        )),
        frames.len() >= 6 && survives(stock_config(), frames, max_range_sq, s) ==> exists|
            i: i32,
            j: i32,
        |
            s.cell.0 - 1 <= i <= s.cell.0 + 1 && s.cell.1 - 1 <= j <= s.cell.1 + 1
                && #[trigger] votes(frames, max_range_sq, (i, j)) >= 3,
        stock_config().cell_m.bits == 0x3D4C_CCCD,
        stock_config().max_range_m.bits == 0x4000_0000,
{
    if frames.len() >= 6 && survives(stock_config(), frames, max_range_sq, s) {
        let (i, j) = choose|i: i32, j: i32|
            s.cell.0 - 1 <= i <= s.cell.0 + 1 && s.cell.1 - 1 <= j <= s.cell.1 + 1
                && #[trigger] confirmed(frames, max_range_sq, 3, (i, j));
        assert(votes(frames, max_range_sq, (i, j)) >= 3);
    }
}

/// Two cells are told apart by their numbers.
pub proof fn law_each_cell_has_its_own_number(a: (i32, i32), b: (i32, i32))
    ensures
        key(a) == key(b) <==> a == b,
{
    if key(a) == key(b) {
        lemma_keys_differ(a, b);
    }
}

} // verus!

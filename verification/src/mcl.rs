//! The particle filter that finds the robot on a saved map.
//!
//! A cloud of poses moves with the odometry and is weighed against each scan. This
//! holds the cloud and everything that is decided about it: what is drawn from the
//! random stream and in which order, which particles a resampling keeps, where the
//! cloud is densest, and when it counts as locked. Likelihoods, trigonometry and
//! averages are the caller's.

use vstd::prelude::*;
use crate::ieee::Single;
use crate::rng::{advanced, output, Rng};
use crate::submap::Pose2;

verus! {

#[derive(Debug, Clone, Copy, PartialEq, Eq, Structural)]
pub struct MclConfig {
    /// How many hypotheses there are.
    pub n_particles: usize,
    /// Motion noise: of the position and of the heading, per metre and per radian.
    pub sigma_xy_per_m: Single,
    pub sigma_xy_per_rad: Single,
    pub sigma_yaw_per_m: Single,
    pub sigma_yaw_per_rad: Single,
    /// Spread of a beam's residual.
    pub beam_sigma_m: Single,
    /// No beam counts for more than this.
    pub beam_clamp_m: Single,
    /// A scan with fewer beams is ignored.
    pub min_beams_used: u32,
    /// The cloud is resampled when its effective size falls below this share.
    pub resample_ess_frac: Single,
    /// The cloud is locked when enough particles are this close to its densest part,
    pub locked_xy_std_m: Single,
    /// and this close in heading,
    pub locked_yaw_std_rad: Single,
    /// and the best one fits this well,
    pub locked_max_residual_m: Single,
    /// for this many scans in a row.
    pub locked_min_frames: u32,
    /// Noise added to every motion.
    pub jitter_xy_m: Single,
    pub jitter_yaw_rad: Single,
    /// Share of particles drawn anew after a resampling.
    pub random_inject_frac: Single,
    /// Log-odds above which a cell is a wall.
    pub wall_threshold_fp: i16,
    /// Log-odds above which a wall cannot be seen through.
    pub see_through_fp: i16,
    /// How much of a scan's evidence counts.
    pub likelihood_temper: Single,
    /// The cloud is not resampled on this many first scans.
    pub min_updates_before_resample: u32,
    /// How many particles are enough.
    pub locked_dominant_frac: Single,
}

/// Eight hundred particles; a lock takes eight tenths of them within fifteen
/// centimetres and eight degrees, five centimetres of residual, and twenty-five scans
/// in a row.
pub open spec fn stock_config() -> MclConfig {
    MclConfig {
        n_particles: 800,
        sigma_xy_per_m: Single { bits: 0x3DCC_CCCD },
        sigma_xy_per_rad: Single { bits: 0x3D4C_CCCD },
        sigma_yaw_per_m: Single { bits: 0x3D4C_CCCD },
        sigma_yaw_per_rad: Single { bits: 0x3DCC_CCCD },
        beam_sigma_m: Single { bits: 0x3E4C_CCCD },
        beam_clamp_m: Single { bits: 0x3F00_0000 },
        min_beams_used: 16,
        resample_ess_frac: Single { bits: 0x3F00_0000 },
        locked_xy_std_m: Single { bits: 0x3E19_999A },
        locked_yaw_std_rad: Single { bits: 0x3E0E_FA35 },
        locked_max_residual_m: Single { bits: 0x3D4C_CCCD },
        locked_min_frames: 25,
        jitter_xy_m: Single { bits: 0x3BA3_D70A },
        jitter_yaw_rad: Single { bits: 0x3BA3_D70A },
        random_inject_frac: Single { bits: 0x3DCC_CCCD },
        wall_threshold_fp: 200,
        see_through_fp: 300,
        likelihood_temper: Single { bits: 0x3E99_999A },
        min_updates_before_resample: 5,
        locked_dominant_frac: Single { bits: 0x3F4C_CCCD },
    }
}

impl Default for MclConfig {
    fn default() -> (cfg: Self)
        ensures
            cfg == stock_config(),
    {
        MclConfig {
            n_particles: 800,
            sigma_xy_per_m: Single { bits: 0x3DCC_CCCD },
            sigma_xy_per_rad: Single { bits: 0x3D4C_CCCD },
            sigma_yaw_per_m: Single { bits: 0x3D4C_CCCD },
            sigma_yaw_per_rad: Single { bits: 0x3DCC_CCCD },
            beam_sigma_m: Single { bits: 0x3E4C_CCCD },
            beam_clamp_m: Single { bits: 0x3F00_0000 },
            min_beams_used: 16,
            resample_ess_frac: Single { bits: 0x3F00_0000 },
            locked_xy_std_m: Single { bits: 0x3E19_999A },
            locked_yaw_std_rad: Single { bits: 0x3E0E_FA35 },
            locked_max_residual_m: Single { bits: 0x3D4C_CCCD },
            locked_min_frames: 25,
            jitter_xy_m: Single { bits: 0x3BA3_D70A },
            jitter_yaw_rad: Single { bits: 0x3BA3_D70A },
            random_inject_frac: Single { bits: 0x3DCC_CCCD },
            wall_threshold_fp: 200,
            see_through_fp: 300,
            likelihood_temper: Single { bits: 0x3E99_999A },
            min_updates_before_resample: 5,
            locked_dominant_frac: Single { bits: 0x3F4C_CCCD },
        }
    }
}

/// The bits of a residual that nothing has been measured for.
pub const NO_RESIDUAL_BITS: u32 = 0x7FC0_0000;

/// The bits of one.
pub const ONE_BITS: u32 = 0x3F80_0000;

pub struct Localizer {
    cfg: MclConfig,
    particles: Vec<Pose2>,
    weights: Vec<Single>,
    rng: Rng,
    last_residual_m: Single,
    locked_streak: u32,
    update_count: u32,
    anchor_cache: Option<Pose2>,
}

/// How a particle is placed: in the middle of nowhere when the map has no free cell,
/// or in a free cell, off its centre by so much of a cell. The numbers are counts of
/// 2^-24.
#[derive(Debug, Clone, Copy, PartialEq, Eq, Structural)]
pub enum Draw {
    Nowhere { yaw: u32 },
    InCell { cell: usize, dx: u32, dy: u32, yaw: u32 },
}

/// A uniform number, as the generator makes it in this state.
pub open spec fn uniform_of(words: Seq<u64>) -> u32 {
    (output(words) >> 40) as u32
}

/// One draw from the generator in this state.
pub open spec fn draw_of(words: Seq<u64>, n_free: usize) -> Draw {
    if n_free == 0 {
        Draw::Nowhere { yaw: uniform_of(words) }
    } else {
        let a = advanced(words);
        let b = advanced(a);
        let c = advanced(b);
        Draw::InCell {
            cell: (output(words) % (n_free as u64)) as usize,
            dx: uniform_of(a),
            dy: uniform_of(b),
            yaw: uniform_of(c),
        }
    }
}

/// The generator's state after that draw.
pub open spec fn after_draw(words: Seq<u64>, n_free: usize) -> Seq<u64> {
    if n_free == 0 {
        advanced(words)
    } else {
        advanced(advanced(advanced(advanced(words))))
    }
}

/// The first `n` draws, and the state after them.
pub open spec fn draws_of(words: Seq<u64>, n_free: usize, n: nat) -> (Seq<Draw>, Seq<u64>)
    decreases n,
{
    if n == 0 {
        (Seq::empty(), words)
    } else {
        let (draws, at) = draws_of(words, n_free, (n - 1) as nat);
        (draws.push(draw_of(at, n_free)), after_draw(at, n_free))
    }
}

/// The position of the heaviest particle: the last of equals, and one that cannot be
/// compared gives way to the next.
pub open spec fn heaviest(weights: Seq<Single>) -> int
    decreases weights.len(),
{
    if weights.len() <= 1 {
        0
    } else {
        let best = heaviest(weights.drop_last());
        if weights.last().below(weights[best]) {
            best
        } else {
            weights.len() - 1
        }
    }
}

/// Where a wheel turned to `u` stops, from `k` on: at the first particle whose share
/// ends at or past it, or at the last.
pub open spec fn stop(cum: Seq<Single>, k: int, u: Single) -> int
    decreases cum.len() - k,
{
    if k >= cum.len() - 1 || !cum[k].below(u) {
        k
    } else {
        stop(cum, k + 1, u)
    }
}

/// Where the wheel stopped for the last of these.
pub open spec fn stopped_at(cum: Seq<Single>, us: Seq<Single>) -> int
    decreases us.len(),
{
    if us.len() == 0 {
        0
    } else {
        stop(cum, stopped_at(cum, us.drop_last()), us.last())
    }
}

/// The particles that a resampling keeps, one for each number, given the running sums
/// of the weights.
pub open spec fn choices(cum: Seq<Single>, us: Seq<Single>) -> Seq<int>
    decreases us.len(),
{
    if us.len() == 0 {
        Seq::empty()
    } else {
        choices(cum, us.drop_last()).push(stopped_at(cum, us))
    }
}

proof fn lemma_stop(cum: Seq<Single>, k: int, u: Single)
    requires
        0 <= k < cum.len(),
    ensures
        k <= stop(cum, k, u) < cum.len(),
        forall|i: int| k <= i < stop(cum, k, u) ==> (#[trigger] cum[i]).below(u),
        stop(cum, k, u) < cum.len() - 1 ==> !cum[stop(cum, k, u)].below(u),
    decreases cum.len() - k,
{
    if k < cum.len() - 1 && cum[k].below(u) {
        lemma_stop(cum, k + 1, u);
    }
}

/// The positions of the particles that a resampling keeps.
pub fn resample_choices(cum: &[Single], us: &[Single]) -> (picked: Vec<usize>)
    requires
        cum@.len() > 0,
    ensures
        picked@.map_values(|k: usize| k as int) == choices(cum@, us@),
        forall|i: int| 0 <= i < picked@.len() ==> (#[trigger] picked@[i]) < cum@.len(),
{
    let mut picked: Vec<usize> = Vec::new();
    let mut k: usize = 0;
    let mut i: usize = 0;
    assert(us@.take(0) =~= Seq::<Single>::empty());
    while i < us.len()
        invariant
            i <= us@.len(),
            k < cum@.len(),
            k == stopped_at(cum@, us@.take(i as int)),
            picked@.map_values(|k: usize| k as int) =~= choices(cum@, us@.take(i as int)),
            forall|i: int| 0 <= i < picked@.len() ==> (#[trigger] picked@[i]) < cum@.len(),
        decreases us.len() - i,
    {
        assert(us@.take(i + 1).drop_last() =~= us@.take(i as int));
        let u = us[i];
        let ghost from = k as int;
        while k < cum.len() - 1 && cum[k].lt(u)
            invariant
                from <= k < cum@.len(),
                stop(cum@, from, u) == stop(cum@, k as int, u),
            decreases cum.len() - k,
        {
            k += 1;
        }
        assert(k == stop(cum@, from, u));
        picked.push(k);
        i += 1;
    }
    assert(us@.take(i as int) =~= us@);
    picked
}

/// How many of the numbers are below a limit.
pub open spec fn n_below(xs: Seq<Single>, limit: Single) -> nat
    decreases xs.len(),
{
    if xs.len() == 0 {
        0
    } else {
        n_below(xs.drop_last(), limit) + if xs.last().below(limit) {
            1nat
        } else {
            0nat
        }
    }
}

/// How many particles are within a radius, given how far off each is; squared
/// distances with a squared radius, or turns with a turn.
pub fn count_within(offs: &[Single], radius: Single) -> (n: usize)
    ensures
        n == n_below(offs@, radius),
{
    let mut n: usize = 0;
    let mut i: usize = 0;
    while i < offs.len()
        invariant
            i <= offs@.len(),
            n <= i,
            n == n_below(offs@.take(i as int), radius),
        decreases offs.len() - i,
    {
        assert(offs@.take(i + 1).drop_last() =~= offs@.take(i as int));
        if offs[i].lt(radius) {
            n += 1;
        }
        i += 1;
    }
    assert(offs@.take(i as int) =~= offs@);
    n
}

/// The particle belongs to a cluster: it is not known to be as far off as either
/// radius.
pub open spec fn belongs(off: Single, turned: Single, radius: Single, turn: Single) -> bool {
    !radius.at_most(off) && !turn.at_most(turned)
}

/// The positions of the particles that make up a cluster.
pub open spec fn members_of(
    offs: Seq<Single>,
    turns: Seq<Single>,
    radius: Single,
    turn: Single,
) -> Seq<int>
    decreases offs.len(),
{
    if offs.len() == 0 {
        Seq::empty()
    } else {
        let k = offs.len() - 1;
        let rest = members_of(offs.drop_last(), turns, radius, turn);
        if belongs(offs[k], turns[k], radius, turn) {
            rest.push(k)
        } else {
            rest
        }
    }
}

/// The members of a cluster, given how far off in place (squared, as the radius) and
/// in heading each particle is. The mean of those around the densest bin anchors the
/// cloud, and the mean of those around that is what a lock commits to.
pub fn cluster_members(offs: &[Single], turns: &[Single], radius: Single, turn: Single) -> (members:
    Vec<usize>)
    requires
        offs@.len() == turns@.len(),
    ensures
        members@.map_values(|k: usize| k as int) == members_of(offs@, turns@, radius, turn),
{
    let mut members: Vec<usize> = Vec::new();
    let mut i: usize = 0;
    while i < offs.len()
        invariant
            i <= offs@.len(),
            offs@.len() == turns@.len(),
            members@.map_values(|k: usize| k as int) =~= members_of(
                offs@.take(i as int),
                turns@,
                radius,
                turn,
            ),
        decreases offs.len() - i,
    {
        assert(offs@.take(i + 1).drop_last() =~= offs@.take(i as int));
        if !radius.le(offs[i]) && !turn.le(turns[i]) {
            members.push(i);
        }
        i += 1;
    }
    assert(offs@.take(i as int) =~= offs@);
    members
}

/// A bin of places and headings.
pub type Bin = (i32, i32, i32);

/// How many of the particles are in a bin.
pub open spec fn occupants(bins: Seq<Bin>, bin: Bin) -> nat
    decreases bins.len(),
{
    if bins.len() == 0 {
        0
    } else {
        occupants(bins.drop_last(), bin) + if bins.last() == bin {
            1nat
        } else {
            0nat
        }
    }
}

/// The bin with the lower coordinates, the first that differ.
pub open spec fn lower_bin(a: Bin, b: Bin) -> bool {
    ||| a.0 < b.0
    ||| a.0 == b.0 && a.1 < b.1
    ||| a.0 == b.0 && a.1 == b.1 && a.2 < b.2
}

/// No bin has more occupants, and none with as many has lower coordinates.
pub open spec fn is_densest(bins: Seq<Bin>, bin: Bin) -> bool {
    &&& bins.contains(bin)
    &&& forall|k: int|
        0 <= k < bins.len() ==> {
            ||| occupants(bins, #[trigger] bins[k]) < occupants(bins, bin)
            ||| occupants(bins, bins[k]) == occupants(bins, bin) && !lower_bin(bins[k], bin)
        }
}

fn is_lower_bin(a: Bin, b: Bin) -> (r: bool)
    ensures
        r == lower_bin(a, b),
{
    a.0 < b.0 || (a.0 == b.0 && a.1 < b.1) || (a.0 == b.0 && a.1 == b.1 && a.2 < b.2)
}

fn count_occupants(bins: &[Bin], bin: Bin) -> (n: usize)
    ensures
        n == occupants(bins@, bin),
{
    let mut n: usize = 0;
    let mut i: usize = 0;
    while i < bins.len()
        invariant
            i <= bins@.len(),
            n <= i,
            n == occupants(bins@.take(i as int), bin),
        decreases bins.len() - i,
    {
        assert(bins@.take(i + 1).drop_last() =~= bins@.take(i as int));
        let b = bins[i];
        if b.0 == bin.0 && b.1 == bin.1 && b.2 == bin.2 {
            n += 1;
        }
        i += 1;
    }
    assert(bins@.take(i as int) =~= bins@);
    n
}

/// The densest bin, given the bin of each particle; `None` when there are none. Ties
/// go to the lower coordinates, so that a recorded run replays bit for bit.
pub fn densest_bin(bins: &[Bin]) -> (densest: Option<Bin>)
    ensures
        densest is None <==> bins@.len() == 0,
        densest matches Some(b) ==> is_densest(bins@, b),
{
    if bins.len() == 0 {
        return None;
    }
    let mut best: Bin = bins[0];
    let mut most: usize = count_occupants(bins, best);
    let mut k: usize = 1;
    while k < bins.len()
        invariant
            1 <= k <= bins@.len(),
            most == occupants(bins@, best),
            exists|i: int| 0 <= i < bins@.len() && bins@[i] == best,
            forall|j: int|
                0 <= j < k ==> {
                    ||| occupants(bins@, #[trigger] bins@[j]) < most
                    ||| occupants(bins@, bins@[j]) == most && !lower_bin(bins@[j], best)
                },
        decreases bins.len() - k,
    {
        let n: usize = count_occupants(bins, bins[k]);
        if n > most || (n == most && is_lower_bin(bins[k], best)) {
            best = bins[k];
            most = n;
        }
        k += 1;
    }
    Some(best)
}

/// There is one densest bin at most.
pub proof fn law_densest_bin_is_unique(bins: Seq<Bin>, a: Bin, b: Bin)
    requires
        is_densest(bins, a),
        is_densest(bins, b),
    ensures
        a == b,
{
    let i = choose|i: int| 0 <= i < bins.len() && bins[i] == a;
    let j = choose|j: int| 0 <= j < bins.len() && bins[j] == b;
    assert(bins[i] == a && bins[j] == b);
}

/// A particle drawn anew: which one, the free cell it goes to, and its heading as a
/// count of 2^-24.
#[derive(Debug, Clone, Copy)]
pub struct Injection {
    pub victim: usize,
    pub cell: (usize, usize),
    pub yaw: u32,
}

/// The state of drawing particles anew: what has been drawn, and the generator.
pub struct Injecting {
    pub drawn: Seq<Injection>,
    pub words: Seq<u64>,
}

/// One try: a cell is drawn, and if it is free a heading and a particle too.
pub open spec fn after_try(
    s: Injecting,
    free: Seq<bool>,
    w: usize,
    h: usize,
    n: usize,
) -> Injecting {
    let i = (output(s.words) % (h as u64)) as usize;
    let a = advanced(s.words);
    let j = (output(a) % (w as u64)) as usize;
    let b = advanced(a);
    if !free[i * w + j] {
        Injecting { drawn: s.drawn, words: b }
    } else {
        let c = advanced(b);
        Injecting {
            drawn: s.drawn.push(
                Injection {
                    victim: (output(c) % (n as u64)) as usize,
                    cell: (i, j),
                    yaw: uniform_of(b),
                },
            ),
            words: advanced(c),
        }
    }
}

/// The state after as many tries as it takes to draw `count`, or `tries` of them.
pub open spec fn injected(
    s: Injecting,
    free: Seq<bool>,
    w: usize,
    h: usize,
    n: usize,
    count: int,
    tries: nat,
) -> Injecting
    decreases tries,
{
    if tries == 0 || s.drawn.len() >= count {
        s
    } else {
        injected(after_try(s, free, w, h, n), free, w, h, n, count, (tries - 1) as nat)
    }
}

/// How often a free cell is looked for, per particle wanted.
pub const TRIES_PER_INJECTION: usize = 20;

/// The particles after some were put elsewhere, one after the other.
pub open spec fn with_injected(particles: Seq<Pose2>, at: Seq<(usize, Pose2)>) -> Seq<Pose2>
    decreases at.len(),
{
    if at.len() == 0 {
        particles
    } else {
        with_injected(particles, at.drop_last()).update(at.last().0 as int, at.last().1)
    }
}

impl Localizer {
    pub closed spec fn settings(&self) -> MclConfig {
        self.cfg
    }

    pub closed spec fn cloud(&self) -> Seq<Pose2> {
        self.particles@
    }

    pub closed spec fn shares(&self) -> Seq<Single> {
        self.weights@
    }

    /// The random generator's words.
    pub closed spec fn words(&self) -> Seq<u64> {
        self.rng.words()
    }

    pub closed spec fn spare(&self) -> Option<Single> {
        self.rng.spare()
    }

    pub closed spec fn residual(&self) -> Single {
        self.last_residual_m
    }

    /// Scans in a row that met the lock's terms.
    pub closed spec fn streak(&self) -> int {
        self.locked_streak as int
    }

    /// Scans taken in since the cloud was seeded.
    pub closed spec fn updates(&self) -> int {
        self.update_count as int
    }

    /// The anchor of the densest cluster, while it is known.
    pub closed spec fn anchor(&self) -> Option<Pose2> {
        self.anchor_cache
    }

    /// There are particles, and each has a weight.
    pub open spec fn well_formed(&self) -> bool {
        self.cloud().len() > 0 && self.shares().len() == self.cloud().len()
    }

    /// The generator is where it was.
    pub open spec fn same_stream(&self, other: &Localizer) -> bool {
        self.words() == other.words() && self.spare() == other.spare()
    }

    /// What the last scan said is what it was.
    pub open spec fn same_record(&self, other: &Localizer) -> bool {
        &&& self.residual() == other.residual()
        &&& self.streak() == other.streak()
        &&& self.updates() == other.updates()
    }

    /// Nothing has been weighed since the cloud was placed.
    pub open spec fn unweighed(&self) -> bool {
        &&& self.residual() == (Single { bits: NO_RESIDUAL_BITS })
        &&& self.streak() == 0
        &&& self.updates() == 0
        &&& self.anchor() is None
    }

    /// A cloud of particles that all sit at the origin, one at least.
    pub fn new(cfg: MclConfig, seed: u64) -> (mcl: Self)
        ensures
            mcl.well_formed(),
            mcl.settings() == cfg,
            mcl.cloud().len() == if cfg.n_particles < 1 {
                1
            } else {
                cfg.n_particles as int
            },
            forall|i: int| 0 <= i < mcl.cloud().len() ==> mcl.cloud()[i] == Pose2::origin(),
            forall|i: int|
                0 <= i < mcl.shares().len() ==> mcl.shares()[i] == (Single { bits: ONE_BITS }),
            mcl.words() == crate::rng::seeded(seed),
            mcl.spare() is None,
            mcl.unweighed(),
    {
        let n: usize = if cfg.n_particles < 1 {
            1
        } else {
            cfg.n_particles
        };
        let mut particles: Vec<Pose2> = Vec::new();
        let mut weights: Vec<Single> = Vec::new();
        let mut i: usize = 0;
        while i < n
            invariant
                i <= n,
                particles@.len() == i,
                weights@.len() == i,
                forall|k: int| 0 <= k < i ==> particles@[k] == Pose2::origin(),
                forall|k: int| 0 <= k < i ==> weights@[k] == (Single { bits: ONE_BITS }),
            decreases n - i,
        {
            particles.push(Pose2::zero());
            weights.push(Single { bits: ONE_BITS });
            i += 1;
        }
        Localizer {
            cfg,
            particles,
            weights,
            rng: Rng::from_seed(seed),
            last_residual_m: Single { bits: NO_RESIDUAL_BITS },
            locked_streak: 0,
            update_count: 0,
            anchor_cache: None,
        }
    }

    pub fn n_particles(&self) -> (n: usize)
        ensures
            n == self.cloud().len(),
    {
        self.particles.len()
    }

    pub fn particles(&self) -> (cloud: &[Pose2])
        ensures
            cloud@ == self.cloud(),
    {
        self.particles.as_slice()
    }

    pub fn weights(&self) -> (weights: &[Single])
        ensures
            weights@ == self.shares(),
    {
        self.weights.as_slice()
    }

    pub fn last_residual_m(&self) -> (r: Single)
        ensures
            r == self.residual(),
    {
        self.last_residual_m
    }

    pub fn locked_streak(&self) -> (n: u32)
        ensures
            n == self.streak(),
    {
        self.locked_streak
    }

    /// The anchor of the densest cluster, when the last scan left one.
    pub fn cluster_anchor(&self) -> (a: Option<Pose2>)
        ensures
            a == self.anchor(),
    {
        self.anchor_cache
    }

    /// The random stream, for motion noise.
    pub fn rng_mut(&mut self) -> (rng: &mut Rng)
        ensures
            rng.words() == old(self).words(),
            rng.spare() == old(self).spare(),
            final(self).words() == final(rng).words(),
            final(self).spare() == final(rng).spare(),
            final(self).settings() == old(self).settings(),
            final(self).cloud() == old(self).cloud(),
            final(self).shares() == old(self).shares(),
            final(self).same_record(old(self)),
            final(self).anchor() == old(self).anchor(),
    {
        &mut self.rng
    }

    /// Draws, for each particle, where in `n_free` free cells it goes.
    pub fn draw_uniform(&mut self, n_free: usize) -> (draws: Vec<Draw>)
        ensures
            draws@ == draws_of(old(self).words(), n_free, old(self).cloud().len()).0,
            final(self).words() == draws_of(old(self).words(), n_free, old(self).cloud().len()).1,
            final(self).spare() == old(self).spare(),
            final(self).settings() == old(self).settings(),
            final(self).cloud() == old(self).cloud(),
            final(self).shares() == old(self).shares(),
            final(self).same_record(old(self)),
            final(self).anchor() == old(self).anchor(),
    {
        let ghost start = self.rng.words();
        let mut draws: Vec<Draw> = Vec::new();
        let mut i: usize = 0;
        while i < self.particles.len()
            invariant
                i <= self.particles@.len(),
                self.rng.spare() == old(self).rng.spare(),
                self.cfg == old(self).cfg,
                self.particles == old(self).particles,
                self.weights == old(self).weights,
                self.last_residual_m == old(self).last_residual_m,
                self.locked_streak == old(self).locked_streak,
                self.update_count == old(self).update_count,
                self.anchor_cache == old(self).anchor_cache,
                (draws@, self.rng.words()) == draws_of(start, n_free, i as nat),
            decreases self.particles.len() - i,
        {
            if n_free == 0 {
                let yaw: u32 = self.rng.uniform();
                draws.push(Draw::Nowhere { yaw });
            } else {
                let cell: usize = self.rng.index(n_free);
                let dx: u32 = self.rng.uniform();
                let dy: u32 = self.rng.uniform();
                let yaw: u32 = self.rng.uniform();
                draws.push(Draw::InCell { cell, dx, dy, yaw });
            }
            i += 1;
        }
        draws
    }

    /// Puts the whole cloud somewhere, all weights alike, and forgets what was weighed.
    pub fn seed_uniform(&mut self, poses: Vec<Pose2>, each: Single)
        requires
            old(self).well_formed(),
            poses@.len() == old(self).cloud().len(),
        ensures
            final(self).well_formed(),
            final(self).settings() == old(self).settings(),
            final(self).cloud() == poses@,
            forall|i: int| 0 <= i < final(self).shares().len() ==> final(self).shares()[i] == each,
            final(self).unweighed(),
            final(self).same_stream(old(self)),
    {
        self.particles = poses;
        self.reset_weights(each);
        self.locked_streak = 0;
        self.last_residual_m = Single { bits: NO_RESIDUAL_BITS };
        self.update_count = 0;
        self.anchor_cache = None;
    }

    /// Puts the cloud around some seeds, as [`Self::seed_uniform`] does; without seeds
    /// nothing changes. The `i`-th particle belongs to the seed that `i` leaves on
    /// division by their number.
    pub fn seed_around(&mut self, n_seeds: usize, poses: Vec<Pose2>, each: Single)
        requires
            old(self).well_formed(),
            poses@.len() == old(self).cloud().len(),
        ensures
            final(self).well_formed(),
            final(self).same_stream(old(self)),
            final(self).settings() == old(self).settings(),
            n_seeds == 0 ==> *final(self) == *old(self),
            n_seeds > 0 ==> {
                &&& final(self).cloud() == poses@
                &&& forall|i: int|
                    0 <= i < final(self).shares().len() ==> final(self).shares()[i] == each
                &&& final(self).unweighed()
            },
    {
        if n_seeds > 0 {
            self.seed_uniform(poses, each);
        }
    }

    /// Puts the first particles of a freshly placed cloud around seeds.
    pub fn seed_mixed(&mut self, poses: &[Pose2])
        requires
            old(self).well_formed(),
            poses@.len() <= old(self).cloud().len(),
        ensures
            final(self).well_formed(),
            final(self).settings() == old(self).settings(),
            final(self).cloud() == poses@ + old(self).cloud().skip(poses@.len() as int),
            final(self).shares() == old(self).shares(),
            final(self).same_record(old(self)),
            final(self).anchor() == old(self).anchor(),
            final(self).same_stream(old(self)),
    {
        let ghost before = self.particles@;
        let mut i: usize = 0;
        while i < poses.len()
            invariant
                i <= poses@.len(),
                poses@.len() <= before.len(),
                self.cfg == old(self).cfg,
                self.weights == old(self).weights,
                self.rng == old(self).rng,
                self.last_residual_m == old(self).last_residual_m,
                self.locked_streak == old(self).locked_streak,
                self.update_count == old(self).update_count,
                self.anchor_cache == old(self).anchor_cache,
                self.particles@ =~= poses@.take(i as int) + before.skip(i as int),
            decreases poses.len() - i,
        {
            self.particles[i] = poses[i];
            i += 1;
        }
        assert(poses@.take(i as int) =~= poses@);
    }

    /// Moves the cloud. The anchor is no longer known.
    pub fn predict(&mut self, poses: Vec<Pose2>)
        requires
            old(self).well_formed(),
            poses@.len() == old(self).cloud().len(),
        ensures
            final(self).well_formed(),
            final(self).settings() == old(self).settings(),
            final(self).cloud() == poses@,
            final(self).shares() == old(self).shares(),
            final(self).same_record(old(self)),
            final(self).anchor() is None,
            final(self).same_stream(old(self)),
    {
        self.particles = poses;
        self.anchor_cache = None;
    }

    /// Whether a scan with this many beams is taken in at all.
    pub fn takes(&self, n_beams: usize) -> (r: bool)
        ensures
            r == (n_beams >= self.settings().min_beams_used),
    {
        n_beams as u64 >= self.cfg.min_beams_used as u64
    }

    fn reset_weights(&mut self, each: Single)
        ensures
            final(self).weights@.len() == old(self).weights@.len(),
            forall|i: int|
                0 <= i < final(self).weights@.len() ==> final(self).weights@[i] == each,
            final(self).cfg == old(self).cfg,
            final(self).particles == old(self).particles,
            final(self).rng == old(self).rng,
            final(self).last_residual_m == old(self).last_residual_m,
            final(self).locked_streak == old(self).locked_streak,
            final(self).update_count == old(self).update_count,
            final(self).anchor_cache == old(self).anchor_cache,
    {
        let mut i: usize = 0;
        while i < self.weights.len()
            invariant
                i <= self.weights@.len(),
                self.weights@.len() == old(self).weights@.len(),
                forall|k: int| 0 <= k < i ==> self.weights@[k] == each,
                self.cfg == old(self).cfg,
                self.particles == old(self).particles,
                self.rng == old(self).rng,
                self.last_residual_m == old(self).last_residual_m,
                self.locked_streak == old(self).locked_streak,
                self.update_count == old(self).update_count,
                self.anchor_cache == old(self).anchor_cache,
            decreases self.weights.len() - i,
        {
            self.weights[i] = each;
            i += 1;
        }
    }

    /// Takes in a scan: the weights times each particle's likelihood sum up to `sum`,
    /// and `normalised` is what they are over that sum. When the sum is nothing, all
    /// weights become `each`.
    pub fn reweigh(&mut self, normalised: Vec<Single>, sum: Single, each: Single)
        requires
            old(self).well_formed(),
            normalised@.len() == old(self).shares().len(),
            old(self).updates() < u32::MAX,
        ensures
            final(self).well_formed(),
            final(self).settings() == old(self).settings(),
            final(self).cloud() == old(self).cloud(),
            final(self).same_stream(old(self)),
            final(self).updates() == old(self).updates() + 1,
            final(self).residual() == old(self).residual(),
            final(self).streak() == old(self).streak(),
            final(self).anchor() == old(self).anchor(),
            (Single { bits: 0 }).below(sum) ==> final(self).shares() == normalised@,
            !(Single { bits: 0 }).below(sum) ==> forall|i: int|
                0 <= i < final(self).shares().len() ==> final(self).shares()[i] == each,
    {
        if (Single { bits: 0 }).lt(sum) {
            self.weights = normalised;
        } else {
            self.reset_weights(each);
        }
        self.update_count += 1;
    }

    /// The position of the heaviest particle.
    pub fn best_index(&self) -> (k: usize)
        requires
            self.well_formed(),
        ensures
            k == heaviest(self.shares()),
            k < self.cloud().len(),
    {
        let mut best: usize = 0;
        let mut i: usize = 1;
        assert(self.weights@.take(1).len() == 1);
        while i < self.weights.len()
            invariant
                self.well_formed(),
                1 <= i <= self.weights@.len(),
                best < i,
                best == heaviest(self.weights@.take(i as int)),
            decreases self.weights.len() - i,
        {
            assert(self.weights@.take(i + 1).drop_last() =~= self.weights@.take(i as int));
            if !self.weights[i].lt(self.weights[best]) {
                best = i;
            }
            i += 1;
        }
        assert(self.weights@.take(i as int) =~= self.weights@);
        best
    }

    /// The heaviest particle.
    pub fn best(&self) -> (p: Pose2)
        requires
            self.well_formed(),
        ensures
            p == self.cloud()[heaviest(self.shares())],
    {
        self.particles[self.best_index()]
    }

    /// Records the mean residual of the best particle.
    pub fn record_residual(&mut self, mean: Single)
        ensures
            final(self).residual() == mean,
            final(self).settings() == old(self).settings(),
            final(self).cloud() == old(self).cloud(),
            final(self).shares() == old(self).shares(),
            final(self).same_stream(old(self)),
            final(self).streak() == old(self).streak(),
            final(self).updates() == old(self).updates(),
            final(self).anchor() == old(self).anchor(),
    {
        self.last_residual_m = mean;
    }

    /// It is time to resample.
    pub open spec fn is_due(&self, effective: Single, least: Single) -> bool {
        self.updates() > self.settings().min_updates_before_resample && effective.below(least)
    }

    /// Whether to resample: not on the first scans, during which weights gather evidence,
    /// and only when the effective size is below `least`.
    pub fn needs_resampling(&self, effective: Single, least: Single) -> (r: bool)
        ensures
            r == self.is_due(effective, least),
    {
        self.update_count > self.cfg.min_updates_before_resample && effective.lt(least)
    }

    /// Resamples with the wheel: `cum` holds the running sums of the weights, and `us`
    /// where the wheel is read, one for each particle. When the weights sum up to
    /// nothing the cloud stays as it is. All weights become `each`.
    pub fn systematic_resample(&mut self, cum: &[Single], us: &[Single], each: Single)
        requires
            old(self).well_formed(),
            cum@.len() == old(self).cloud().len(),
            us@.len() == old(self).cloud().len(),
        ensures
            final(self).well_formed(),
            final(self).settings() == old(self).settings(),
            final(self).same_stream(old(self)),
            final(self).same_record(old(self)),
            final(self).anchor() == old(self).anchor(),
            forall|i: int| 0 <= i < final(self).shares().len() ==> final(self).shares()[i] == each,
            final(self).cloud() == if cum@.last().at_most((Single { bits: 0 })) {
                old(self).cloud()
            } else {
                choices(cum@, us@).map_values(|k: int| old(self).cloud()[k])
            },
    {
        if !cum[cum.len() - 1].le(Single { bits: 0 }) {
            let picked = resample_choices(cum, us);
            let ghost chosen = choices(cum@, us@);
            let mut particles: Vec<Pose2> = Vec::new();
            let mut i: usize = 0;
            assert(picked@.map_values(|k: usize| k as int).len() == picked@.len());
            while i < picked.len()
                invariant
                    i <= picked@.len(),
                    picked@.map_values(|k: usize| k as int) == chosen,
                    forall|i: int|
                        0 <= i < picked@.len() ==> (#[trigger] picked@[i]) < self.particles@.len(),
                    particles@.len() == i,
                    forall|k: int|
                        0 <= k < i ==> (#[trigger] particles@[k]) == self.particles@[chosen[k]],
                decreases picked.len() - i,
            {
                let k: usize = picked[i];
                assert(picked@.map_values(|k: usize| k as int)[i as int] == k);
                particles.push(self.particles[k]);
                i += 1;
            }
            proof {
                lemma_choices_len(cum@, us@);
                assert(particles@ =~= chosen.map_values(|k: int| old(self).cloud()[k]));
            }
            self.particles = particles;
        }
        self.reset_weights(each);
    }

    /// Draws up to `count` particles anew: random ones, not the first of the cloud,
    /// since a resampling leaves copies of one particle next to each other. Cells that
    /// are not free do not count, and after too many of those it is given up.
    pub fn draw_injections(&mut self, free: &[bool], w: usize, h: usize, count: usize) -> (drawn:
        Vec<Injection>)
        requires
            old(self).well_formed(),
            w > 0,
            h > 0,
            w * h == free@.len(),
            count * TRIES_PER_INJECTION <= usize::MAX,
        ensures
            ({
                let end = injected(
                    (Injecting { drawn: Seq::empty(), words: old(self).words() }),
                    free@,
                    w,
                    h,
                    old(self).cloud().len() as usize,
                    count as int,
                    (count * TRIES_PER_INJECTION) as nat,
                );
                &&& drawn@ == end.drawn
                &&& final(self).words() == end.words
            }),
            forall|k: int|
                0 <= k < drawn@.len() ==> (#[trigger] drawn@[k]).victim < old(self).cloud().len()
                    && drawn@[k].cell.0 < h && drawn@[k].cell.1 < w,
            final(self).well_formed(),
            final(self).spare() == old(self).spare(),
            final(self).settings() == old(self).settings(),
            final(self).cloud() == old(self).cloud(),
            final(self).shares() == old(self).shares(),
            final(self).same_record(old(self)),
            final(self).anchor() == old(self).anchor(),
    {
        let n: usize = self.particles.len();
        let n_cells: usize = free.len();
        let ghost end = injected(
            (Injecting { drawn: Seq::empty(), words: self.rng.words() }),
            free@,
            w,
            h,
            n,
            count as int,
            (count * TRIES_PER_INJECTION) as nat,
        );
        let mut drawn: Vec<Injection> = Vec::new();
        let mut left: usize = count * TRIES_PER_INJECTION;
        while drawn.len() < count && left > 0
            invariant
                n == self.particles@.len(),
                n > 0,
                w > 0,
                h > 0,
                w * h == n_cells,
                n_cells == free@.len(),
                self.rng.spare() == old(self).rng.spare(),
                self.cfg == old(self).cfg,
                self.particles == old(self).particles,
                self.weights == old(self).weights,
                self.last_residual_m == old(self).last_residual_m,
                self.locked_streak == old(self).locked_streak,
                self.update_count == old(self).update_count,
                self.anchor_cache == old(self).anchor_cache,
                end == injected(
                    (Injecting { drawn: drawn@, words: self.rng.words() }),
                    free@,
                    w,
                    h,
                    n,
                    count as int,
                    left as nat,
                ),
                forall|k: int|
                    0 <= k < drawn@.len() ==> (#[trigger] drawn@[k]).victim < n
                        && drawn@[k].cell.0 < h && drawn@[k].cell.1 < w,
            decreases left,
        {
            let ghost now = Injecting { drawn: drawn@, words: self.rng.words() };
            left -= 1;
            let i: usize = self.rng.index(h);
            let j: usize = self.rng.index(w);
            assert(i * w + j < w * h) by (nonlinear_arith)
                requires
                    i < h,
                    j < w,
            ;
            assert(0 <= i * w) by (nonlinear_arith);
            if free[i * w + j] {
                let yaw: u32 = self.rng.uniform();
                let victim: usize = self.rng.index(n);
                drawn.push(Injection { victim, cell: (i, j), yaw });
            }
            assert((Injecting { drawn: drawn@, words: self.rng.words() }) == after_try(
                now,
                free@,
                w,
                h,
                n,
            ));
        }
        drawn
    }

    /// Puts particles where they were drawn to, one after the other.
    pub fn inject_uniform(&mut self, at: &[(usize, Pose2)])
        requires
            old(self).well_formed(),
            forall|k: int| 0 <= k < at@.len() ==> (#[trigger] at@[k]).0 < old(self).cloud().len(),
        ensures
            final(self).well_formed(),
            final(self).settings() == old(self).settings(),
            final(self).cloud() == with_injected(old(self).cloud(), at@),
            final(self).shares() == old(self).shares(),
            final(self).same_record(old(self)),
            final(self).anchor() == old(self).anchor(),
            final(self).same_stream(old(self)),
    {
        let ghost before = self.particles@;
        let mut k: usize = 0;
        assert(at@.take(0) =~= Seq::<(usize, Pose2)>::empty());
        while k < at.len()
            invariant
                k <= at@.len(),
                forall|k: int| 0 <= k < at@.len() ==> (#[trigger] at@[k]).0 < before.len(),
                self.particles@.len() == before.len(),
                self.cfg == old(self).cfg,
                self.weights == old(self).weights,
                self.rng == old(self).rng,
                self.last_residual_m == old(self).last_residual_m,
                self.locked_streak == old(self).locked_streak,
                self.update_count == old(self).update_count,
                self.anchor_cache == old(self).anchor_cache,
                self.particles@ == with_injected(before, at@.take(k as int)),
            decreases at.len() - k,
        {
            assert(at@.take(k + 1).drop_last() =~= at@.take(k as int));
            let (victim, pose) = at[k];
            self.particles[victim] = pose;
            k += 1;
        }
        assert(at@.take(k as int) =~= at@);
    }

    /// The lock's terms: the best particle fits, and enough particles are near the
    /// anchor in place and in heading.
    pub open spec fn meets_terms(&self, in_place: Single, in_heading: Single) -> bool {
        &&& self.residual().finite()
        &&& self.residual().at_most(self.settings().locked_max_residual_m)
        &&& self.settings().locked_dominant_frac.at_most(in_place)
        &&& self.settings().locked_dominant_frac.at_most(in_heading)
    }

    /// Ends an update: keeps the anchor that the shares of particles near it were
    /// taken about, and counts the scan toward a lock or starts counting anew.
    pub fn update(&mut self, anchor: Pose2, in_place: Single, in_heading: Single)
        requires
            old(self).streak() < u32::MAX,
        ensures
            final(self).anchor() == Some(anchor),
            final(self).streak() == if old(self).meets_terms(in_place, in_heading) {
                old(self).streak() + 1
            } else {
                0
            },
            final(self).settings() == old(self).settings(),
            final(self).cloud() == old(self).cloud(),
            final(self).shares() == old(self).shares(),
            final(self).same_stream(old(self)),
            final(self).residual() == old(self).residual(),
            final(self).updates() == old(self).updates(),
    {
        self.anchor_cache = Some(anchor);
        let res_ok = self.last_residual_m.is_finite() && self.last_residual_m.le(
            self.cfg.locked_max_residual_m,
        );
        let spread_ok = self.cfg.locked_dominant_frac.le(in_place)
            && self.cfg.locked_dominant_frac.le(in_heading);
        if res_ok && spread_ok {
            self.locked_streak += 1;
        } else {
            self.locked_streak = 0;
        }
    }

    /// The lock's terms have been met for long enough.
    pub open spec fn locked(&self) -> bool {
        self.streak() >= self.settings().locked_min_frames
    }

    /// Whether the lock's terms have been met for long enough.
    pub fn is_locked(&self) -> (r: bool)
        ensures
            r == self.locked(),
            r == (self.streak() >= self.settings().locked_min_frames),
    {
        self.locked_streak >= self.cfg.locked_min_frames
    }
}

/// What an update of the cloud needs next.
#[derive(Debug)]
pub enum UpdateAsk {
    /// How well each particle explains the scan.
    Weigh,
    /// How well the particle at this position does, which is the heaviest.
    Score { at: usize },
    /// How many particles still count.
    Measure,
    /// The running sums of the weights.
    Sum,
    /// Where the wheel is read, from this far into the first of its sectors.
    Spin { cum: Vec<Single>, first: u32 },
    /// Which cells are free, and how many particles to draw anew.
    Inject,
    /// The poses of the particles drawn anew.
    Place { drawn: Vec<Injection> },
    /// The densest cluster, and the shares of particles near its anchor.
    Gather,
    /// Nothing more.
    Done,
}

/// What an update is given.
#[derive(Debug)]
pub enum UpdateEvent {
    /// See [`Localizer::reweigh`].
    Weighed { normalised: Vec<Single>, sum: Single, each: Single },
    Scored { mean: Single },
    /// See [`Localizer::needs_resampling`].
    Measured { effective: Single, least: Single },
    Summed { cum: Vec<Single>, each: Single },
    /// See [`Localizer::systematic_resample`].
    Spun { us: Vec<Single>, each: Single },
    /// See [`Localizer::draw_injections`].
    Room { free: Vec<bool>, w: usize, h: usize, count: usize },
    /// One pose for each particle that was drawn.
    Placed { poses: Vec<Pose2> },
    /// See [`Localizer::update`].
    Gathered { anchor: Pose2, in_place: Single, in_heading: Single },
}

/// The event answers what was asked.
pub open spec fn answers(mcl: Localizer, ask: UpdateAsk, e: UpdateEvent) -> bool {
    match (ask, e) {
        (UpdateAsk::Weigh, UpdateEvent::Weighed { normalised, .. }) => normalised@.len()
            == mcl.shares().len() && mcl.updates() < u32::MAX,
        (UpdateAsk::Score { .. }, UpdateEvent::Scored { .. }) => true,
        (UpdateAsk::Measure, UpdateEvent::Measured { .. }) => true,
        (UpdateAsk::Sum, UpdateEvent::Summed { cum, .. }) => cum@.len() == mcl.cloud().len(),
        (UpdateAsk::Spin { cum, .. }, UpdateEvent::Spun { us, .. }) => {
            &&& cum@.len() == mcl.cloud().len()
            &&& us@.len() == mcl.cloud().len()
            &&& !cum@.last().at_most((Single { bits: 0 }))
        },
        (UpdateAsk::Inject, UpdateEvent::Room { free, w, h, count }) => count == 0 || {
            &&& w > 0
            &&& h > 0
            &&& w * h == free@.len()
            &&& count * TRIES_PER_INJECTION <= usize::MAX
        },
        (UpdateAsk::Place { drawn }, UpdateEvent::Placed { poses }) => {
            &&& poses@.len() == drawn@.len()
            &&& forall|k: int|
                0 <= k < drawn@.len() ==> (#[trigger] drawn@[k]).victim < mcl.cloud().len()
        },
        (UpdateAsk::Gather, UpdateEvent::Gathered { .. }) => mcl.streak() < u32::MAX,
        _ => false,
    }
}

/// The particles drawn anew, each with its pose.
pub open spec fn placed(drawn: Seq<Injection>, poses: Seq<Pose2>) -> Seq<(usize, Pose2)> {
    Seq::new(drawn.len(), |k: int| (drawn[k].victim, poses[k]))
}

/// All weights are the same.
pub open spec fn level(shares: Seq<Single>, each: Single) -> bool {
    forall|i: int| 0 <= i < shares.len() ==> (#[trigger] shares[i]) == each
}

/// One step of an update: what it changes, and what it needs next.
pub open spec fn updates_on(
    before: Localizer,
    ask: UpdateAsk,
    e: UpdateEvent,
    after: Localizer,
    next: UpdateAsk,
) -> bool {
    let same_cloud = after.cloud() == before.cloud();
    let same_shares = after.shares() == before.shares();
    let same_residual = after.residual() == before.residual();
    let same_count = after.updates() == before.updates();
    let same_lock = after.streak() == before.streak() && after.anchor() == before.anchor();
    &&& after.well_formed()
    &&& after.settings() == before.settings()
    &&& match (ask, e) {
        (UpdateAsk::Weigh, UpdateEvent::Weighed { normalised, sum, each }) => {
            &&& same_cloud && same_residual && same_lock && after.same_stream(&before)
            &&& after.updates() == before.updates() + 1
            &&& if (Single { bits: 0 }).below(sum) {
                after.shares() == normalised@
            } else {
                after.shares().len() == before.shares().len() && level(after.shares(), each)
            }
            &&& next matches UpdateAsk::Score { at } && at == heaviest(after.shares())
        },
        (UpdateAsk::Score { .. }, UpdateEvent::Scored { mean }) => {
            &&& same_cloud && same_shares && same_count && same_lock && after.same_stream(&before)
            &&& after.residual() == mean
            &&& next is Measure
        },
        (UpdateAsk::Measure, UpdateEvent::Measured { effective, least }) => {
            &&& same_cloud && same_shares && same_residual && same_count && same_lock
                && after.same_stream(&before)
            &&& if before.is_due(effective, least) {
                next is Sum
            } else {
                next is Gather
            }
        },
        (UpdateAsk::Sum, UpdateEvent::Summed { cum, each }) => {
            &&& same_cloud && same_residual && same_count && same_lock
            &&& after.spare() == before.spare()
            &&& if cum@.last().at_most((Single { bits: 0 })) {
                &&& level(after.shares(), each)
                &&& after.words() == before.words()
                &&& next is Inject
            } else {
                &&& same_shares
                &&& after.words() == advanced(before.words())
                &&& next matches UpdateAsk::Spin { cum: sums, first } && sums@ == cum@ && first
                    == uniform_of(before.words())
            }
        },
        (UpdateAsk::Spin { cum, .. }, UpdateEvent::Spun { us, each }) => {
            &&& same_residual && same_count && same_lock && after.same_stream(&before)
            &&& after.cloud() == choices(cum@, us@).map_values(|k: int| before.cloud()[k])
            &&& level(after.shares(), each)
            &&& next is Inject
        },
        (UpdateAsk::Inject, UpdateEvent::Room { free, w, h, count }) => {
            &&& same_cloud && same_shares && same_residual && same_count && same_lock
            &&& after.spare() == before.spare()
            &&& if count == 0 {
                next is Gather && after.words() == before.words()
            } else {
                let end = injected(
                    (Injecting { drawn: Seq::empty(), words: before.words() }),
                    free@,
                    w,
                    h,
                    before.cloud().len() as usize,
                    count as int,
                    (count * TRIES_PER_INJECTION) as nat,
                );
                &&& after.words() == end.words
                &&& next matches UpdateAsk::Place { drawn } && drawn@ == end.drawn && forall|k: int|
                    0 <= k < drawn@.len() ==> (#[trigger] drawn@[k]).victim < after.cloud().len()
            }
        },
        (UpdateAsk::Place { drawn }, UpdateEvent::Placed { poses }) => {
            &&& same_shares && same_residual && same_count && same_lock && after.same_stream(
                &before,
            )
            &&& after.cloud() == with_injected(before.cloud(), placed(drawn@, poses@))
            &&& next is Gather
        },
        (UpdateAsk::Gather, UpdateEvent::Gathered { anchor, in_place, in_heading }) => {
            &&& same_cloud && same_shares && same_residual && same_count && after.same_stream(
                &before,
            )
            &&& after.anchor() == Some(anchor)
            &&& after.streak() == if before.meets_terms(in_place, in_heading) {
                before.streak() + 1
            } else {
                0
            }
            &&& next is Done
        },
        _ => false,
    }
}

impl Localizer {
    /// Starts an update by a scan with this many beams. One with too few changes nothing.
    pub fn begin_update(&self, n_beams: usize) -> (ask: UpdateAsk)
        ensures
            ask == if n_beams >= self.settings().min_beams_used {
                UpdateAsk::Weigh
            } else {
                UpdateAsk::Done
            },
    {
        if self.takes(n_beams) {
            UpdateAsk::Weigh
        } else {
            UpdateAsk::Done
        }
    }

    /// Goes on with an update: takes in what was asked for, and asks for the next.
    pub fn step_update(&mut self, ask: UpdateAsk, e: UpdateEvent) -> (next: UpdateAsk)
        requires
            old(self).well_formed(),
            answers(*old(self), ask, e),
        ensures
            updates_on(*old(self), ask, e, *final(self), next),
    {
        match (ask, e) {
            (UpdateAsk::Weigh, UpdateEvent::Weighed { normalised, sum, each }) => {
                self.reweigh(normalised, sum, each);
                UpdateAsk::Score { at: self.best_index() }
            },
            (UpdateAsk::Score { .. }, UpdateEvent::Scored { mean }) => {
                self.record_residual(mean);
                UpdateAsk::Measure
            },
            (UpdateAsk::Measure, UpdateEvent::Measured { effective, least }) => {
                if self.needs_resampling(effective, least) {
                    UpdateAsk::Sum
                } else {
                    UpdateAsk::Gather
                }
            },
            (UpdateAsk::Sum, UpdateEvent::Summed { cum, each }) => {
                if cum[cum.len() - 1].le(Single { bits: 0 }) {
                    self.reset_weights(each);
                    UpdateAsk::Inject
                } else {
                    let first: u32 = self.rng.uniform();
                    UpdateAsk::Spin { cum, first }
                }
            },
            (UpdateAsk::Spin { cum, .. }, UpdateEvent::Spun { us, each }) => {
                self.systematic_resample(cum.as_slice(), us.as_slice(), each);
                UpdateAsk::Inject
            },
            (UpdateAsk::Inject, UpdateEvent::Room { free, w, h, count }) => {
                if count == 0 {
                    UpdateAsk::Gather
                } else {
                    let drawn = self.draw_injections(free.as_slice(), w, h, count);
                    UpdateAsk::Place { drawn }
                }
            },
            (UpdateAsk::Place { drawn }, UpdateEvent::Placed { poses }) => {
                let mut at: Vec<(usize, Pose2)> = Vec::new();
                let mut k: usize = 0;
                while k < drawn.len()
                    invariant
                        k <= drawn@.len(),
                        poses@.len() == drawn@.len(),
                        at@ == placed(drawn@, poses@).take(k as int),
                    decreases drawn.len() - k,
                {
                    at.push((drawn[k].victim, poses[k]));
                    assert(at@ =~= placed(drawn@, poses@).take(k + 1));
                    k += 1;
                }
                assert(at@ =~= placed(drawn@, poses@));
                self.inject_uniform(at.as_slice());
                UpdateAsk::Gather
            },
            (UpdateAsk::Gather, UpdateEvent::Gathered { anchor, in_place, in_heading }) => {
                self.update(anchor, in_place, in_heading);
                UpdateAsk::Done
            },
            _ => UpdateAsk::Done,
        }
    }
}

/// How far an update has come.
pub open spec fn stage(ask: UpdateAsk) -> int {
    match ask {
        UpdateAsk::Weigh => 0,
        UpdateAsk::Score { .. } => 1,
        UpdateAsk::Measure => 2,
        UpdateAsk::Sum => 3,
        UpdateAsk::Spin { .. } => 4,
        UpdateAsk::Inject => 5,
        UpdateAsk::Place { .. } => 6,
        UpdateAsk::Gather => 7,
        UpdateAsk::Done => 8,
    }
}

/// The steps of one update, each from what the one before left: `clouds` and `asks` hold
/// one more than `events`.
pub open spec fn is_update(
    clouds: Seq<Localizer>,
    asks: Seq<UpdateAsk>,
    events: Seq<UpdateEvent>,
) -> bool {
    &&& clouds.len() == events.len() + 1
    &&& asks.len() == events.len() + 1
    &&& asks[0] is Weigh
    &&& forall|k: int|
        0 <= k < events.len() ==> updates_on(
            clouds[k],
            asks[k],
            #[trigger] events[k],
            clouds[k + 1],
            asks[k + 1],
        )
}

proof fn lemma_update_so_far(
    clouds: Seq<Localizer>,
    asks: Seq<UpdateAsk>,
    events: Seq<UpdateEvent>,
    n: int,
)
    requires
        is_update(clouds, asks, events),
        0 <= n < asks.len(),
    ensures
        stage(asks[n]) >= n,
        clouds[n].settings() == clouds[0].settings(),
        clouds[n].updates() == clouds[0].updates() + if n > 0 {
            1int
        } else {
            0
        },
        (forall|k: int| 0 <= k < n ==> !((#[trigger] asks[k]) is Sum)) ==> {
            &&& clouds[n].cloud() == clouds[0].cloud()
            &&& clouds[n].words() == clouds[0].words()
            &&& stage(asks[n]) <= 3 || stage(asks[n]) >= 7
            &&& n > 1 ==> clouds[n].shares() == clouds[1].shares()
        },
        n > 0 ==> !(asks[n] is Weigh),
    decreases n,
{
    if n > 0 {
        lemma_update_so_far(clouds, asks, events, n - 1);
        assert(updates_on(
            clouds[n - 1],
            asks[n - 1],
            events[n - 1],
            clouds[n],
            asks[n],
        ));
        if n == 1 {
            assert(asks[0] is Weigh);
        }
        if forall|k: int| 0 <= k < n ==> !((#[trigger] asks[k]) is Sum) {
            assert(!(asks[n - 1] is Sum));
            assert(forall|k: int| 0 <= k < n - 1 ==> !((#[trigger] asks[k]) is Sum));
        }
    }
}

/// An update is over after a few steps. It counts the scan once, and moves particles only
/// by resampling: one that does not resample leaves the cloud and the generator as they
/// were, and the weights as it found them.
pub proof fn law_only_resampling_moves_the_cloud(
    clouds: Seq<Localizer>,
    asks: Seq<UpdateAsk>,
    events: Seq<UpdateEvent>,
)
    requires
        is_update(clouds, asks, events),
    ensures
        events.len() <= 8,
        asks.last() is Done ==> {
            &&& clouds.last().updates() == clouds[0].updates() + 1
            &&& clouds.last().anchor() is Some
            &&& (forall|k: int| 0 <= k < asks.len() ==> !((#[trigger] asks[k]) is Sum)) ==> {
                &&& clouds.last().cloud() == clouds[0].cloud()
                &&& clouds.last().words() == clouds[0].words()
                &&& clouds.last().shares() == clouds[1].shares()
            }
        },
{
    let n = events.len() as int;
    lemma_update_so_far(clouds, asks, events, n);
    assert(stage(asks[n]) <= 8);
    if asks.last() is Done {
        assert(n > 0);
        assert(updates_on(
            clouds[n - 1],
            asks[n - 1],
            events[n - 1],
            clouds[n],
            asks[n],
        ));
        if n == 1 {
            assert(asks[0] is Weigh);
        }
    }
}

proof fn lemma_choices_len(cum: Seq<Single>, us: Seq<Single>)
    ensures
        choices(cum, us).len() == us.len(),
    decreases us.len(),
{
    if us.len() > 0 {
        lemma_choices_len(cum, us.drop_last());
    }
}

/// The streak after some updates, each of which met the lock's terms or not.
pub open spec fn streak_after(met: Seq<bool>) -> nat
    decreases met.len(),
{
    if met.len() == 0 || !met.last() {
        0
    } else {
        streak_after(met.drop_last()) + 1
    }
}

/// A lock takes that many scans in a row that met its terms: the streak reaches `n`
/// only if each of the last `n` updates did.
pub proof fn law_a_lock_takes_scans_in_a_row(met: Seq<bool>, n: nat)
    ensures
        streak_after(met) >= n <==> n <= met.len() && forall|k: int|
            met.len() - n <= k < met.len() ==> #[trigger] met[k],
    decreases met.len(),
{
    if met.len() > 0 {
        let fewer = met.drop_last();
        if n > 0 {
            law_a_lock_takes_scans_in_a_row(fewer, (n - 1) as nat);
            if met.last() {
                assert(fewer.len() == met.len() - 1);
                if streak_after(met) >= n {
                    assert forall|k: int| met.len() - n <= k < met.len() implies #[trigger] met[k] by {
                        if k < fewer.len() {
                            assert(fewer[k] == met[k]);
                        }
                    }
                }
                if n <= met.len() && (forall|k: int|
                    met.len() - n <= k < met.len() ==> #[trigger] met[k]) {
                    assert forall|k: int| fewer.len() - (n - 1) <= k < fewer.len() implies #[trigger] fewer[k] by {
                        assert(met[k]);
                    }
                }
            } else {
                assert(!met[met.len() - 1]);
            }
        }
    }
}

/// The wheel of a resampling stops where it should: with the running sums and the
/// numbers both rising, the particle kept for a number is the first whose share ends
/// at or past it, or the last one.
pub proof fn law_resampling_keeps_by_share(cum: Seq<Single>, us: Seq<Single>, i: int)
    requires
        cum.len() > 0,
        0 <= i < us.len(),
        forall|a: int| 0 <= a < us.len() ==> !(#[trigger] us[a]).nan(),
        forall|a: int, b: int|
            0 <= a <= b < us.len() ==> (#[trigger] us[a]).place() <= (#[trigger] us[b]).place(),
    ensures
        choices(cum, us).len() == us.len(),
        0 <= choices(cum, us)[i] < cum.len(),
        forall|k: int| 0 <= k < choices(cum, us)[i] ==> (#[trigger] cum[k]).below(us[i]),
        choices(cum, us)[i] < cum.len() - 1 ==> !cum[choices(cum, us)[i]].below(us[i]),
        i > 0 ==> choices(cum, us)[i - 1] <= choices(cum, us)[i],
    decreases us.len(),
{
    lemma_choices(cum, us);
}

proof fn lemma_choices(cum: Seq<Single>, us: Seq<Single>)
    requires
        cum.len() > 0,
        forall|a: int| 0 <= a < us.len() ==> !(#[trigger] us[a]).nan(),
        forall|a: int, b: int|
            0 <= a <= b < us.len() ==> (#[trigger] us[a]).place() <= (#[trigger] us[b]).place(),
    ensures
        choices(cum, us).len() == us.len(),
        us.len() > 0 ==> choices(cum, us).last() == stopped_at(cum, us),
        0 <= stopped_at(cum, us) < cum.len(),
        us.len() > 0 ==> forall|k: int|
            0 <= k < stopped_at(cum, us) ==> (#[trigger] cum[k]).below(us.last()),
        us.len() == 0 ==> stopped_at(cum, us) == 0,
        forall|i: int| 0 <= i < us.len() ==> 0 <= #[trigger] choices(cum, us)[i] < cum.len(),
        forall|i: int, k: int|
            0 <= i < us.len() && 0 <= k < choices(cum, us)[i] ==> (#[trigger] cum[k]).below(
                #[trigger] us[i],
            ),
        forall|i: int|
            0 <= i < us.len() && #[trigger] choices(cum, us)[i] < cum.len() - 1 ==> !cum[choices(
                cum,
                us,
            )[i]].below(us[i]),
        forall|i: int|
            0 < i < us.len() ==> choices(cum, us)[i - 1] <= #[trigger] choices(cum, us)[i],
    decreases us.len(),
{
    if us.len() > 0 {
        let fewer = us.drop_last();
        assert forall|a: int| 0 <= a < fewer.len() implies !(#[trigger] fewer[a]).nan() by {
            assert(fewer[a] == us[a]);
        }
        assert forall|a: int, b: int| 0 <= a <= b < fewer.len() implies (
        #[trigger] fewer[a]).place() <= (#[trigger] fewer[b]).place() by {
            assert(us[a].place() <= us[b].place());
        }
        lemma_choices(cum, fewer);
        let from = stopped_at(cum, fewer);
        let u = us.last();
        lemma_stop(cum, from, u);
        let at = stop(cum, from, u);
        let old = choices(cum, fewer);
        let new = choices(cum, us);
        assert(new =~= old.push(at));
        assert forall|k: int| 0 <= k < at implies (#[trigger] cum[k]).below(u) by {
            if k < from {
                assert(cum[k].below(fewer.last()));
                assert(us[fewer.len() - 1].place() <= us[us.len() - 1].place());
            }
        }
        assert forall|i: int, k: int| 0 <= i < us.len() && 0 <= k < new[i] implies (
        #[trigger] cum[k]).below(#[trigger] us[i]) by {
            if i < fewer.len() {
                assert(new[i] == old[i]);
                assert(fewer[i] == us[i]);
                assert(cum[k].below(fewer[i]));
            }
        }
        assert forall|i: int| 0 <= i < us.len() && #[trigger] new[i] < cum.len() - 1 implies !cum[
            new[i]
        ].below(us[i]) by {
            if i < fewer.len() {
                assert(new[i] == old[i]);
                assert(fewer[i] == us[i]);
            }
        }
        assert forall|i: int| 0 < i < us.len() implies new[i - 1] <= #[trigger] new[i] by {
            if i < fewer.len() {
                assert(new[i] == old[i] && new[i - 1] == old[i - 1]);
            } else {
                assert(new[i - 1] == old.last());
            }
        }
    }
}

/// A scan counts toward a lock exactly if the best particle's residual is finite and not
/// above the limit and the share of particles near the anchor is large enough both in
/// place and in heading: any one of the three that falls short rules it out.
pub proof fn law_a_lock_needs_fit_place_and_heading(
    mcl: Localizer,
    in_place: Single,
    in_heading: Single,
)
    ensures
        mcl.settings().locked_max_residual_m.below(mcl.residual()) ==> !mcl.meets_terms(
            in_place,
            in_heading,
        ),
        mcl.residual().bits % 0x8000_0000 >= 0x7F80_0000 ==> !mcl.meets_terms(in_place, in_heading),
        in_place.below(mcl.settings().locked_dominant_frac) ==> !mcl.meets_terms(
            in_place,
            in_heading,
        ),
        in_heading.below(mcl.settings().locked_dominant_frac) ==> !mcl.meets_terms(
            in_place,
            in_heading,
        ),
        mcl.residual().bits % 0x8000_0000 < 0x7F80_0000 && mcl.residual().at_most(
            mcl.settings().locked_max_residual_m,
        ) && mcl.settings().locked_dominant_frac.at_most(in_place)
            && mcl.settings().locked_dominant_frac.at_most(in_heading) ==> mcl.meets_terms(
            in_place,
            in_heading,
        ),
{
}

/// The last step of an update: the streak is one longer if the scan fits, in place and in
/// heading, and starts over if any of the three falls short; the cloud is not touched.
pub proof fn law_a_misfit_ends_the_streak(
    before: Localizer,
    after: Localizer,
    next: UpdateAsk,
    anchor: Pose2,
    in_place: Single,
    in_heading: Single,
)
    requires
        updates_on(
            before,
            UpdateAsk::Gather,
            UpdateEvent::Gathered { anchor, in_place, in_heading },
            after,
            next,
        ),
    ensures
        before.settings().locked_max_residual_m.below(before.residual()) || in_place.below(
            before.settings().locked_dominant_frac,
        ) || in_heading.below(before.settings().locked_dominant_frac)
            || before.residual().bits % 0x8000_0000 >= 0x7F80_0000 ==> after.streak() == 0,
        before.residual().bits % 0x8000_0000 < 0x7F80_0000 && before.residual().at_most(
            before.settings().locked_max_residual_m,
        ) && before.settings().locked_dominant_frac.at_most(in_place)
            && before.settings().locked_dominant_frac.at_most(in_heading) ==> after.streak()
            == before.streak() + 1,
        after.anchor() == Some(anchor),
        after.cloud() == before.cloud(),
        after.residual() == before.residual(),
        next is Done,
{
}

/// A cloud is locked once its streak has reached the frames asked for: never on a streak
/// that has just been broken, if any frames are asked for.
pub proof fn law_a_broken_streak_is_not_a_lock(mcl: Localizer)
    ensures
        mcl.locked() ==> mcl.streak() >= mcl.settings().locked_min_frames,
        mcl.streak() >= mcl.settings().locked_min_frames ==> mcl.locked(),
        mcl.streak() == 0 && mcl.settings().locked_min_frames > 0 ==> !mcl.locked(),
{
}

/// The cloud is resampled exactly if more scans than asked for have been taken in and the
/// effective size is below what is asked for.
pub proof fn law_resampling_waits_for_evidence(mcl: Localizer, effective: Single, least: Single)
    ensures
        mcl.updates() <= mcl.settings().min_updates_before_resample ==> !mcl.is_due(
            effective,
            least,
        ),
        least.at_most(effective) ==> !mcl.is_due(effective, least),
        mcl.updates() > mcl.settings().min_updates_before_resample && effective.below(least)
            ==> mcl.is_due(effective, least),
{
}

/// What a weighing leaves: the weights as normalised where they sum up to something, and
/// else all alike; a scan more; and the heaviest particle is asked about.
pub proof fn law_weights_that_vanish_are_levelled(
    before: Localizer,
    after: Localizer,
    next: UpdateAsk,
    normalised: Vec<Single>,
    sum: Single,
    each: Single,
    i: int,
)
    requires
        updates_on(
            before,
            UpdateAsk::Weigh,
            UpdateEvent::Weighed { normalised, sum, each },
            after,
            next,
        ),
        before.well_formed(),
        normalised@.len() == before.shares().len(),
        0 <= i < before.shares().len(),
    ensures
        0 < sum.bits <= 0x7F80_0000 ==> after.shares()[i] == normalised@[i],
        sum.bits == 0 || sum.bits > 0x7F80_0000 ==> after.shares()[i] == each,
        after.updates() == before.updates() + 1,
        after.cloud() == before.cloud(),
        next matches UpdateAsk::Score { at } && at < after.cloud().len() && ((forall|k: int|
            0 <= k < after.shares().len() ==> !(#[trigger] after.shares()[k]).nan())
            ==> after.shares()[i].at_most(after.shares()[at as int])),
{
    lemma_heaviest(after.shares());
}

/// A resampling keeps particles of the cloud, as many as there were, and levels their
/// weights.
pub proof fn law_resampling_keeps_old_particles(
    before: Localizer,
    after: Localizer,
    next: UpdateAsk,
    cum: Vec<Single>,
    first: u32,
    us: Vec<Single>,
    each: Single,
    i: int,
)
    requires
        updates_on(
            before,
            (UpdateAsk::Spin { cum, first }),
            UpdateEvent::Spun { us, each },
            after,
            next,
        ),
        before.well_formed(),
        cum@.len() == before.cloud().len(),
        us@.len() == before.cloud().len(),
        0 <= i < us@.len(),
    ensures
        after.cloud().len() == before.cloud().len(),
        before.cloud().contains(after.cloud()[i]),
        after.shares()[i] == each,
        after.streak() == before.streak(),
        next is Inject,
{
    lemma_choices_len(cum@, us@);
    lemma_choices_in_range(cum@, us@);
    assert(after.cloud()[i] == before.cloud()[choices(cum@, us@)[i]]);
}

proof fn lemma_choices_in_range(cum: Seq<Single>, us: Seq<Single>)
    requires
        cum.len() > 0,
    ensures
        choices(cum, us).len() == us.len(),
        0 <= stopped_at(cum, us) < cum.len(),
        forall|i: int| 0 <= i < us.len() ==> 0 <= #[trigger] choices(cum, us)[i] < cum.len(),
    decreases us.len(),
{
    if us.len() > 0 {
        let fewer = us.drop_last();
        lemma_choices_in_range(cum, fewer);
        lemma_stop(cum, stopped_at(cum, fewer), us.last());
        assert forall|i: int| 0 <= i < us.len() implies 0 <= #[trigger] choices(cum, us)[i]
            < cum.len() by {
            if i < fewer.len() {
                assert(choices(cum, us)[i] == choices(cum, fewer)[i]);
            }
        }
    }
}

proof fn lemma_heaviest(weights: Seq<Single>)
    requires
        weights.len() > 0,
    ensures
        0 <= heaviest(weights) < weights.len(),
        (forall|k: int| 0 <= k < weights.len() ==> !(#[trigger] weights[k]).nan()) ==> {
            &&& forall|k: int|
                0 <= k < weights.len() ==> (#[trigger] weights[k]).at_most(weights[heaviest(weights)])
            &&& forall|k: int|
                heaviest(weights) < k < weights.len() ==> (#[trigger] weights[k]).below(
                    weights[heaviest(weights)],
                )
        },
    decreases weights.len(),
{
    if weights.len() > 1 {
        let front = weights.drop_last();
        lemma_heaviest(front);
        if forall|k: int| 0 <= k < weights.len() ==> !(#[trigger] weights[k]).nan() {
            assert forall|k: int| 0 <= k < front.len() implies !(#[trigger] front[k]).nan() by {
                assert(front[k] == weights[k]);
            }
            assert forall|k: int| 0 <= k < weights.len() implies (#[trigger] weights[k]).at_most(
                weights[heaviest(weights)],
            ) by {
                if k < front.len() {
                    assert(front[k].at_most(front[heaviest(front)]));
                }
            }
            assert forall|k: int| heaviest(weights) < k < weights.len() implies (
            #[trigger] weights[k]).below(weights[heaviest(weights)]) by {
                if k < front.len() {
                    assert(front[k].below(front[heaviest(front)]));
                }
            }
        }
    }
}

/// The heaviest particle is one of the cloud's; where all weights are numbers, none is
/// above its weight, and it is the last one with that weight.
pub proof fn law_no_particle_outweighs_the_best(weights: Seq<Single>, k: int)
    requires
        0 <= k < weights.len(),
        forall|i: int| 0 <= i < weights.len() ==> !(#[trigger] weights[i]).nan(),
    ensures
        0 <= heaviest(weights) < weights.len(),
        weights[k].at_most(weights[heaviest(weights)]),
        k > heaviest(weights) ==> weights[k].below(weights[heaviest(weights)]),
{
    lemma_heaviest(weights);
}

/// The count of what is below a limit takes in each number once.
pub proof fn law_counting_takes_in_each_number_once(xs: Seq<Single>, x: Single, limit: Single)
    ensures
        n_below(Seq::<Single>::empty(), limit) == 0,
        x.below(limit) ==> n_below(xs.push(x), limit) == n_below(xs, limit) + 1,
        !x.below(limit) ==> n_below(xs.push(x), limit) == n_below(xs, limit),
{
    assert(xs.push(x).drop_last() =~= xs);
}

/// A cluster's members are the particles that are not as far off as the radius in place,
/// nor as the turn in heading, each once and in the cloud's order.
pub proof fn law_cluster_members_are_near_in_place_and_heading(
    offs: Seq<Single>,
    turns: Seq<Single>,
    radius: Single,
    turn: Single,
    k: int,
)
    ensures
        members_of(offs, turns, radius, turn).contains(k) <==> 0 <= k < offs.len()
            && !radius.at_most(offs[k]) && !turn.at_most(turns[k]),
        forall|a: int, b: int|
            0 <= a < b < members_of(offs, turns, radius, turn).len() ==> #[trigger] members_of(
                offs,
                turns,
                radius,
                turn,
            )[a] < #[trigger] members_of(offs, turns, radius, turn)[b],
    decreases offs.len(),
{
    lemma_members(offs, turns, radius, turn);
    if 0 <= k < offs.len() && !radius.at_most(offs[k]) && !turn.at_most(turns[k]) {
        lemma_member_is_in(offs, turns, radius, turn, k);
    }
}

proof fn lemma_members(offs: Seq<Single>, turns: Seq<Single>, radius: Single, turn: Single)
    ensures
        forall|a: int|
            #![trigger members_of(offs, turns, radius, turn)[a]]
            0 <= a < members_of(offs, turns, radius, turn).len() ==> {
                let k = members_of(offs, turns, radius, turn)[a];
                0 <= k < offs.len() && !radius.at_most(offs[k]) && !turn.at_most(turns[k])
            },
        forall|a: int, b: int|
            0 <= a < b < members_of(offs, turns, radius, turn).len() ==> #[trigger] members_of(
                offs,
                turns,
                radius,
                turn,
            )[a] < #[trigger] members_of(offs, turns, radius, turn)[b],
    decreases offs.len(),
{
    if offs.len() > 0 {
        let front = offs.drop_last();
        lemma_members(front, turns, radius, turn);
        let rest = members_of(front, turns, radius, turn);
        let all = members_of(offs, turns, radius, turn);
        assert forall|a: int| #![trigger all[a]] 0 <= a < all.len() implies {
            let k = all[a];
            0 <= k < offs.len() && !radius.at_most(offs[k]) && !turn.at_most(turns[k])
        } by {
            if a < rest.len() {
                assert(all[a] == rest[a]);
                assert(front[rest[a]] == offs[rest[a]]);
            }
        }
        assert forall|a: int, b: int| 0 <= a < b < all.len() implies #[trigger] all[a]
            < #[trigger] all[b] by {
            assert(all[a] == rest[a]);
            if b < rest.len() {
                assert(all[b] == rest[b]);
            }
        }
    }
}

proof fn lemma_member_is_in(
    offs: Seq<Single>,
    turns: Seq<Single>,
    radius: Single,
    turn: Single,
    k: int,
)
    requires
        0 <= k < offs.len(),
        !radius.at_most(offs[k]),
        !turn.at_most(turns[k]),
    ensures
        members_of(offs, turns, radius, turn).contains(k),
    decreases offs.len(),
{
    let front = offs.drop_last();
    let rest = members_of(front, turns, radius, turn);
    let all = members_of(offs, turns, radius, turn);
    if k < front.len() {
        lemma_member_is_in(front, turns, radius, turn, k);
        let a = choose|a: int| 0 <= a < rest.len() && rest[a] == k;
        assert(all[a] == k);
    } else {
        assert(all.last() == k);
    }
}

/// The densest bin holds a particle, no bin holds more of them, and where another holds as
/// many, the densest has the lower first coordinate that differs.
pub proof fn law_densest_bin_holds_most(bins: Seq<Bin>, bin: Bin, k: int)
    requires
        is_densest(bins, bin),
        0 <= k < bins.len(),
    ensures
        bins.contains(bin),
        occupants(bins, bins[k]) <= occupants(bins, bin),
        occupants(bins, bins[k]) == occupants(bins, bin) && bins[k] != bin ==> bin.0 < bins[k].0
            || (bin.0 == bins[k].0 && bin.1 < bins[k].1) || (bin.0 == bins[k].0 && bin.1
            == bins[k].1 && bin.2 < bins[k].2),
{
    assert(bins[k] == bins[k]);
}

/// The occupants of a bin are counted one by one.
pub proof fn law_occupants_are_counted_one_by_one(bins: Seq<Bin>, bin: Bin, other: Bin)
    ensures
        occupants(Seq::<Bin>::empty(), bin) == 0,
        occupants(bins.push(bin), bin) == occupants(bins, bin) + 1,
        other != bin ==> occupants(bins.push(other), bin) == occupants(bins, bin),
{
    assert(bins.push(bin).drop_last() =~= bins);
    assert(bins.push(other).drop_last() =~= bins);
}

/// Particles put elsewhere are where they were put last; all others stay.
pub proof fn law_injection_moves_only_its_victims(
    particles: Seq<Pose2>,
    at: Seq<(usize, Pose2)>,
    i: int,
)
    requires
        0 <= i < particles.len(),
        forall|k: int| 0 <= k < at.len() ==> (#[trigger] at[k]).0 < particles.len(),
    ensures
        with_injected(particles, at).len() == particles.len(),
        (forall|k: int| 0 <= k < at.len() ==> (#[trigger] at[k]).0 != i) ==> with_injected(
            particles,
            at,
        )[i] == particles[i],
        forall|k: int|
            #![trigger at[k]]
            0 <= k < at.len() && at[k].0 == i && (forall|m: int|
                k < m < at.len() ==> (#[trigger] at[m]).0 != i) ==> with_injected(
                particles,
                at,
            )[i] == at[k].1,
    decreases at.len(),
{
    if at.len() > 0 {
        let front = at.drop_last();
        assert forall|k: int| 0 <= k < front.len() implies (#[trigger] front[k]).0
            < particles.len() by {
            assert(front[k] == at[k]);
        }
        law_injection_moves_only_its_victims(particles, front, i);
        let last = at.len() - 1;
        assert(at[last] == at.last());
        assert(at[last].0 < particles.len());
        if forall|k: int| 0 <= k < at.len() ==> (#[trigger] at[k]).0 != i {
            assert forall|k: int| 0 <= k < front.len() implies (#[trigger] front[k]).0 != i by {
                assert(front[k] == at[k]);
            }
        }
        assert forall|k: int|
            #![trigger at[k]]
            0 <= k < at.len() && at[k].0 == i && (forall|m: int|
                k < m < at.len() ==> (#[trigger] at[m]).0 != i) implies with_injected(
            particles,
            at,
        )[i] == at[k].1 by {
            if k < last {
                assert(at[last].0 != i);
                assert(front[k] == at[k]);
                assert forall|m: int| k < m < front.len() implies (#[trigger] front[m]).0 != i by {
                    assert(front[m] == at[m]);
                }
            }
        }
    }
}

/// Particles are drawn anew into free cells only, and never more of them than asked for.
pub proof fn law_particles_are_injected_into_free_cells(
    s: Injecting,
    free: Seq<bool>,
    w: usize,
    h: usize,
    n: usize,
    count: int,
    tries: nat,
    k: int,
)
    requires
        w > 0,
        h > 0,
        n > 0,
        s.drawn.len() == 0,
        0 <= count,
        0 <= k < injected(s, free, w, h, n, count, tries).drawn.len(),
    ensures
        ({
            let drawn = injected(s, free, w, h, n, count, tries).drawn;
            &&& drawn.len() <= count
            &&& drawn.len() <= tries
            &&& drawn[k].victim < n
            &&& drawn[k].cell.0 < h
            &&& drawn[k].cell.1 < w
            &&& free[drawn[k].cell.0 * w + drawn[k].cell.1]
        }),
{
    lemma_injected(s, free, w, h, n, count, tries);
}

proof fn lemma_injected(
    s: Injecting,
    free: Seq<bool>,
    w: usize,
    h: usize,
    n: usize,
    count: int,
    tries: nat,
)
    requires
        w > 0,
        h > 0,
        n > 0,
        s.drawn.len() <= count,
        forall|k: int|
            #![trigger s.drawn[k]]
            0 <= k < s.drawn.len() ==> s.drawn[k].victim < n && s.drawn[k].cell.0 < h
                && s.drawn[k].cell.1 < w && free[s.drawn[k].cell.0 * w + s.drawn[k].cell.1],
    ensures
        ({
            let drawn = injected(s, free, w, h, n, count, tries).drawn;
            &&& drawn.len() <= count
            &&& drawn.len() <= s.drawn.len() + tries
            &&& forall|k: int|
                #![trigger drawn[k]]
                0 <= k < drawn.len() ==> drawn[k].victim < n && drawn[k].cell.0 < h
                    && drawn[k].cell.1 < w && free[drawn[k].cell.0 * w + drawn[k].cell.1]
        }),
    decreases tries,
{
    if tries > 0 && s.drawn.len() < count {
        let next = after_try(s, free, w, h, n);
        assert forall|k: int| #![trigger next.drawn[k]] 0 <= k < next.drawn.len() implies next.drawn[k].victim
            < n && next.drawn[k].cell.0 < h && next.drawn[k].cell.1 < w && free[next.drawn[k].cell.0
            * w + next.drawn[k].cell.1] by {
            if k < s.drawn.len() {
                assert(next.drawn[k] == s.drawn[k]);
            }
        }
        lemma_injected(next, free, w, h, n, count, (tries - 1) as nat);
    }
}

/// A uniform placing draws once for each particle, and each draw is a free cell with
/// offsets and a heading below one; without free cells, a heading alone.
pub proof fn law_uniform_draws_lie_in_free_cells(words: Seq<u64>, n_free: usize, n: nat, k: int)
    requires
        0 <= k < n,
    ensures
        draws_of(words, n_free, n).0.len() == n,
        n_free == 0 ==> draws_of(words, n_free, n).0[k] is Nowhere,
        n_free > 0 ==> (draws_of(words, n_free, n).0[k] matches Draw::InCell { cell, dx, dy, yaw }
            && cell < n_free && dx < 0x100_0000 && dy < 0x100_0000 && yaw < 0x100_0000),
    decreases n,
{
    let m = (n - 1) as nat;
    let (draws, at) = draws_of(words, n_free, m);
    lemma_draws_len(words, n_free, m);
    if k < m {
        law_uniform_draws_lie_in_free_cells(words, n_free, m, k);
    } else {
        let (x, y, z) = (
            output(advanced(at)),
            output(advanced(advanced(at))),
            output(advanced(advanced(advanced(at)))),
        );
        assert(x >> 40 < 0x100_0000) by (bit_vector);
        assert(y >> 40 < 0x100_0000) by (bit_vector);
        assert(z >> 40 < 0x100_0000) by (bit_vector);
    }
}

proof fn lemma_draws_len(words: Seq<u64>, n_free: usize, n: nat)
    ensures
        draws_of(words, n_free, n).0.len() == n,
    decreases n,
{
    if n > 0 {
        lemma_draws_len(words, n_free, (n - 1) as nat);
    }
}

/// With the stock settings a scan counts towards a lock exactly when its residual is a
/// number of at most five centimetres and eight tenths of the particles are near in
/// place, and as many in heading; the lock takes twenty-five such scans in a row, and
/// resampling waits for more than five updates.
pub proof fn law_stock_lock(mcl: Localizer, in_place: Single, in_heading: Single, least: Single)
    requires
        mcl.settings() == stock_config(),
        mcl.residual().bits < 0x8000_0000,
        in_place.bits < 0x7F80_0000,
        in_heading.bits < 0x7F80_0000,
    ensures
        mcl.meets_terms(in_place, in_heading) <==> mcl.residual().bits <= 0x3D4C_CCCD
            && in_place.bits >= 0x3F4C_CCCD && in_heading.bits >= 0x3F4C_CCCD,
        mcl.locked() <==> mcl.streak() >= 25,
        mcl.is_due(in_place, least) ==> mcl.updates() > 5,
{
}

/// The stock cloud: eight hundred particles, and how far the filter trusts odometry,
/// beams and walls.
pub proof fn law_stock_cloud()
    ensures
        ({
            let cfg = stock_config();
            &&& cfg.n_particles == 800
            &&& cfg.sigma_xy_per_m.bits == 0x3DCC_CCCD
            &&& cfg.sigma_xy_per_rad.bits == 0x3D4C_CCCD
            &&& cfg.sigma_yaw_per_m.bits == 0x3D4C_CCCD
            &&& cfg.sigma_yaw_per_rad.bits == 0x3DCC_CCCD
            &&& cfg.beam_sigma_m.bits == 0x3E4C_CCCD
            &&& cfg.beam_clamp_m.bits == 0x3F00_0000
            &&& cfg.beam_sigma_m.below(cfg.beam_clamp_m)
            &&& cfg.min_beams_used == 16
            &&& cfg.resample_ess_frac.bits == 0x3F00_0000
            &&& cfg.locked_xy_std_m.bits == 0x3E19_999A
            &&& cfg.locked_yaw_std_rad.bits == 0x3E0E_FA35
            &&& cfg.jitter_xy_m.bits == 0x3BA3_D70A
            &&& cfg.jitter_yaw_rad.bits == 0x3BA3_D70A
            &&& cfg.random_inject_frac.bits == 0x3DCC_CCCD
            &&& cfg.wall_threshold_fp == 200
            &&& cfg.see_through_fp == 300
            &&& cfg.likelihood_temper.bits == 0x3E99_999A
        }),
{
}

/// A cloud that has not been weighed has no residual, no anchor and no streak, so that
/// no scan counts towards a lock before one was weighed.
pub proof fn law_an_unweighed_cloud_meets_no_terms(
    mcl: Localizer,
    in_place: Single,
    in_heading: Single,
)
    requires
        mcl.unweighed(),
    ensures
        mcl.residual().bits % 0x8000_0000 > 0x7F80_0000,
        mcl.streak() == 0,
        mcl.updates() == 0,
        mcl.anchor() is None,
        !mcl.meets_terms(in_place, in_heading),
{
}

/// What leaves the generator where it was keeps its words and its spare number alike.
pub proof fn law_an_unmoved_generator_draws_the_same(a: Localizer, b: Localizer)
    requires
        a.same_stream(&b),
    ensures
        a.words() == b.words(),
        a.spare() == b.spare(),
        uniform_of(a.words()) == uniform_of(b.words()),
{
}

/// A free cell is looked for twenty times per particle wanted.
pub proof fn law_injection_gives_up()
    ensures
        TRIES_PER_INJECTION == 20,
        ONE_BITS == 0x3F80_0000,
{
}

/// A draw takes four numbers off the generator, one for the cell, two for the place in
/// it and one for the heading; on a map without a free cell only the heading is drawn.
pub proof fn law_a_draw_takes_four_numbers(words: Seq<u64>, n_free: usize)
    ensures
        n_free > 0 ==> after_draw(words, n_free) == advanced(
            advanced(advanced(advanced(words))),
        ),
        n_free == 0 ==> after_draw(words, n_free) == advanced(words),
        n_free > 0 <==> draw_of(words, n_free) is InCell,
        draw_of(words, n_free) matches Draw::InCell { cell, dx, dy, yaw } ==> cell < n_free,
{
}

/// Bins are told apart by the first coordinate in which they differ, so that of two
/// different ones exactly one is the lower.
pub proof fn law_bins_are_ordered_by_their_first_difference(a: Bin, b: Bin)
    ensures
        a.0 < b.0 ==> lower_bin(a, b),
        a.0 == b.0 && a.1 < b.1 ==> lower_bin(a, b),
        a.0 == b.0 && a.1 == b.1 ==> (lower_bin(a, b) <==> a.2 < b.2),
        a != b ==> (lower_bin(a, b) <==> !lower_bin(b, a)),
        !lower_bin(a, a),
{
}

} // verus!

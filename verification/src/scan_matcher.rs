//! Scan-to-map refinement.
//!
//! A pose is shifted, round by round, so that the ends of a scan's beams land on
//! mapped walls. Distances, gradients and the solve are the caller's; which map
//! cells a beam reads, which beams inform a round, when the rounds stop and what
//! the match is worth are decided here.

use vstd::prelude::*;
use crate::ieee::{Single, SINGLE_INFINITY};
use crate::submap::{Pose2, Scan};

verus! {

#[derive(Debug, Clone, Copy, PartialEq, Eq, Structural)]
pub struct ScanMatchConfig {
    pub max_iters: u32,
    /// The rounds stop once a step is shorter than this in every component.
    pub eps_translation_m: Single,
    pub eps_rotation_rad: Single,
    /// Damping added to the diagonal each round.
    pub lambda: Single,
    /// A beam that ends farther than this from any wall tells nothing.
    pub sigma_m: Single,
    /// Log-odds above which a cell is a wall.
    pub occ_threshold_fp: i16,
    /// How tightly the result is held to the prior pose; zero lets go.
    pub prior_sigma_xy: Single,
    pub prior_sigma_yaw: Single,
}

pub const DEFAULT_MAX_ITERS: u32 = 12;

pub const DEFAULT_EPS_BITS: u32 = 0x3A83_126F;

pub const DEFAULT_SIGMA_BITS: u32 = 0x3E99_999A;

pub const DEFAULT_OCC_THRESHOLD: i16 = 200;

pub const DEFAULT_PRIOR_BITS: u32 = 0x3F00_0000;

impl Default for ScanMatchConfig {
    /// A dozen rounds, down to a millimetre and a milliradian, with beams counting
    /// within thirty centimetres of a wall.
    fn default() -> (cfg: Self)
        ensures
            cfg.max_iters == DEFAULT_MAX_ITERS,
            cfg.eps_translation_m.bits == DEFAULT_EPS_BITS,
            cfg.eps_rotation_rad.bits == DEFAULT_EPS_BITS,
            cfg.lambda.bits == DEFAULT_EPS_BITS,
            cfg.sigma_m.bits == DEFAULT_SIGMA_BITS,
            cfg.occ_threshold_fp == DEFAULT_OCC_THRESHOLD,
            cfg.prior_sigma_xy.bits == DEFAULT_PRIOR_BITS,
            cfg.prior_sigma_yaw.bits == DEFAULT_PRIOR_BITS,
    {
        ScanMatchConfig {
            max_iters: DEFAULT_MAX_ITERS,
            eps_translation_m: Single { bits: DEFAULT_EPS_BITS },
            eps_rotation_rad: Single { bits: DEFAULT_EPS_BITS },
            lambda: Single { bits: DEFAULT_EPS_BITS },
            sigma_m: Single { bits: DEFAULT_SIGMA_BITS },
            occ_threshold_fp: DEFAULT_OCC_THRESHOLD,
            prior_sigma_xy: Single { bits: DEFAULT_PRIOR_BITS },
            prior_sigma_yaw: Single { bits: DEFAULT_PRIOR_BITS },
        }
    }
}

#[derive(Debug, Clone, Copy, PartialEq, Eq, Structural)]
pub struct ScanMatchResult {
    pub pose: Pose2,
    /// Root mean square distance to a wall at the final pose, over the beams used;
    /// infinity when none was. The prior has no part in it.
    pub residual_m: Single,
    pub iterations: u32,
    pub converged: bool,
    /// Beams that end near a wall at the final pose.
    pub n_beams_used: u32,
    /// Beams of the scan.
    pub n_beams_valid: u32,
    /// Beams that end, at the final pose, in a cell the map has an opinion on.
    pub n_beams_observed: u32,
}

/// The four cells around a point, row by row, as positions in the grid: of the two
/// rows from `i0` and the two columns from `j0`.
pub open spec fn corners(i0: int, j0: int, w: int) -> Seq<int> {
    seq![i0 * w + j0, i0 * w + j0 + 1, (i0 + 1) * w + j0, (i0 + 1) * w + j0 + 1]
}

/// Whether all four lie in the grid.
pub open spec fn corners_inside(i0: int, j0: int, h: int, w: int) -> bool {
    i0 >= 0 && j0 >= 0 && i0 + 1 < h && j0 + 1 < w
}

/// The cells to interpolate between, or `None` when the point is too close to the
/// edge of the grid or off it.
pub fn corner_cells(i0: i32, j0: i32, h: usize, w: usize) -> (cells: Option<[usize; 4]>)
    requires
        h * w <= usize::MAX,
    ensures
        cells is Some <==> corners_inside(i0 as int, j0 as int, h as int, w as int),
        cells matches Some(c) ==> {
            &&& c@.map_values(|x: usize| x as int) == corners(i0 as int, j0 as int, w as int)
            &&& forall|k: int| 0 <= k < 4 ==> (#[trigger] c@[k]) < h * w
        },
{
    if i0 < 0 || j0 < 0 {
        return None;
    }
    let i: usize = i0 as usize;
    let j: usize = j0 as usize;
    if h < 2 || w < 2 || i >= h - 1 || j >= w - 1 {
        return None;
    }
    assert((i + 1) * w + j + 1 < h * w) by (nonlinear_arith)
        requires
            i + 1 < h,
            j + 1 < w,
    ;
    assert((i + 1) * w == i * w + w) by (nonlinear_arith);
    assert(0 <= i * w) by (nonlinear_arith);
    let a: usize = i * w + j;
    let c: [usize; 4] = [a, a + 1, a + w, a + w + 1];
    assert(c@.map_values(|x: usize| x as int) =~= corners(i0 as int, j0 as int, w as int));
    Some(c)
}

/// Whether a beam that ends this far from a wall informs a round.
pub open spec fn informs(d: Single, sigma: Single) -> bool {
    d.finite() && !sigma.below(d)
}

/// Beams farther than `sigma` from any wall, and those off the map, have no say: they
/// would only tug the pose toward a wall they have nothing to do with.
pub fn is_informative(d: Single, sigma: Single) -> (r: bool)
    ensures
        r == informs(d, sigma),
{
    d.is_finite() && !sigma.lt(d)
}

/// The step that a round solved for, and the pose it leads to.
#[derive(Debug, Clone, Copy, PartialEq, Eq, Structural)]
pub struct Step {
    pub pose: Pose2,
    pub dx: Single,
    pub dy: Single,
    pub dyaw: Single,
}

/// What a round found.
#[derive(Debug, Clone, Copy, PartialEq, Eq, Structural)]
pub enum Round {
    /// No beam ended near a wall.
    Blind,
    /// The system has no solution.
    Singular,
    Stepped(Step),
}

/// A refinement under way.
#[derive(Debug, Clone, Copy, PartialEq, Eq, Structural)]
pub struct Refinement {
    pub pose: Pose2,
    pub iterations: u32,
    pub converged: bool,
    /// Whether no round is left to run.
    pub done: bool,
}

/// Whether a step is short enough to stop at.
pub open spec fn short(cfg: ScanMatchConfig, step: Step) -> bool {
    &&& step.dx.without_sign().below(cfg.eps_translation_m)
    &&& step.dy.without_sign().below(cfg.eps_translation_m)
    &&& step.dyaw.without_sign().below(cfg.eps_rotation_rad)
}

pub open spec fn first_refinement(cfg: ScanMatchConfig, initial: Pose2) -> Refinement {
    Refinement { pose: initial, iterations: 0, converged: false, done: cfg.max_iters == 0 }
}

pub open spec fn after_round(cfg: ScanMatchConfig, r: Refinement, round: Round) -> Refinement {
    let iterations = (r.iterations + 1) as u32;
    match round {
        Round::Blind => Refinement { iterations, done: true, ..r },
        Round::Singular => Refinement { iterations, done: true, ..r },
        Round::Stepped(step) => Refinement {
            pose: step.pose,
            iterations,
            converged: short(cfg, step),
            done: short(cfg, step) || iterations >= cfg.max_iters,
        },
    }
}

/// Starts at a pose.
pub fn begin(cfg: &ScanMatchConfig, initial_pose: Pose2) -> (r: Refinement)
    ensures
        r == first_refinement(*cfg, initial_pose),
{
    Refinement { pose: initial_pose, iterations: 0, converged: false, done: cfg.max_iters == 0 }
}

/// Some beam informs a round, by how far from a wall each ends.
pub open spec fn any_informs(distances: Seq<Single>, sigma: Single) -> bool {
    exists|i: int| 0 <= i < distances.len() && informs(#[trigger] distances[i], sigma)
}

/// What a round found: `distances` is how far from a wall each beam ends, and `solved` the
/// step that the beams which inform the round call for, if their system has a solution.
pub open spec fn round_of(
    cfg: ScanMatchConfig,
    distances: Seq<Single>,
    solved: Option<Step>,
) -> Round {
    if !any_informs(distances, cfg.sigma_m) {
        Round::Blind
    } else {
        match solved {
            Some(step) => Round::Stepped(step),
            None => Round::Singular,
        }
    }
}

fn is_any_informative(distances: &[Single], sigma: Single) -> (r: bool)
    ensures
        r == any_informs(distances@, sigma),
{
    let mut i: usize = 0;
    while i < distances.len()
        invariant
            i <= distances@.len(),
            forall|k: int| 0 <= k < i ==> !informs(#[trigger] distances@[k], sigma),
        decreases distances.len() - i,
    {
        if is_informative(distances[i], sigma) {
            assert(informs(distances@[i as int], sigma));
            return true;
        }
        i += 1;
    }
    false
}

/// Ends one round: see [`round_of`].
pub fn advance(
    cfg: &ScanMatchConfig,
    r: Refinement,
    distances: &[Single],
    solved: Option<Step>,
) -> (next: Refinement)
    requires
        r.iterations < cfg.max_iters,
    ensures
        next == after_round(*cfg, r, round_of(*cfg, distances@, solved)),
{
    let iterations: u32 = r.iterations + 1;
    if !is_any_informative(distances, cfg.sigma_m) {
        return Refinement { iterations, done: true, ..r };
    }
    match solved {
        None => Refinement { iterations, done: true, ..r },
        Some(step) => {
            let converged = step.dx.abs().lt(cfg.eps_translation_m) && step.dy.abs().lt(
                cfg.eps_translation_m,
            ) && step.dyaw.abs().lt(cfg.eps_rotation_rad);
            Refinement {
                pose: step.pose,
                iterations,
                converged,
                done: converged || iterations >= cfg.max_iters,
            }
        },
    }
}

/// How a beam fares at the final pose: how far its end is from a wall, and the
/// log-odds of the cell it ends in, if that lies in the grid.
#[derive(Debug, Clone, Copy)]
pub struct Landing {
    pub distance: Single,
    pub log: Option<i16>,
}

/// Log-odds at or beyond which, either way, the map has an opinion on a cell.
pub const OBSERVED_FP: i16 = 50;

/// The map has an opinion on the cell the beam ends in.
pub open spec fn observed(b: Landing) -> bool {
    &&& b.distance.finite()
    &&& b.log matches Some(v) && (v >= OBSERVED_FP || v <= -OBSERVED_FP)
}

/// How many of the landings inform the match.
pub open spec fn n_informing(landings: Seq<Landing>, sigma: Single) -> nat
    decreases landings.len(),
{
    if landings.len() == 0 {
        0
    } else {
        n_informing(landings.drop_last(), sigma) + if informs(landings.last().distance, sigma) {
            1nat
        } else {
            0nat
        }
    }
}

/// How many of the landings are in cells the map has an opinion on.
pub open spec fn n_observed(landings: Seq<Landing>) -> nat
    decreases landings.len(),
{
    if landings.len() == 0 {
        0
    } else {
        n_observed(landings.drop_last()) + if observed(landings.last()) {
            1nat
        } else {
            0nat
        }
    }
}

/// What a refinement that is over came to: the counts are taken at the final pose, over
/// one landing per beam of the scan, and `residual_m` is the root mean square over the
/// beams that inform the match.
pub fn match_scan(
    r: Refinement,
    scan: &Scan,
    landings: &[Landing],
    cfg: &ScanMatchConfig,
    residual_m: Single,
) -> (result: ScanMatchResult)
    requires
        r.done,
        landings@.len() == scan.beams@.len(),
        landings@.len() <= u32::MAX,
    ensures
        result.pose == r.pose,
        result.iterations == r.iterations,
        result.converged == r.converged,
        result.n_beams_valid == scan.beams@.len(),
        result.n_beams_used == n_informing(landings@, cfg.sigma_m),
        result.n_beams_observed == n_observed(landings@),
        result.residual_m == if n_informing(landings@, cfg.sigma_m) > 0 {
            residual_m
        } else {
            Single { bits: SINGLE_INFINITY }
        },
{
    let mut used: u32 = 0;
    let mut seen: u32 = 0;
    let mut i: usize = 0;
    while i < landings.len()
        invariant
            i <= landings@.len(),
            landings@.len() <= u32::MAX,
            used == n_informing(landings@.take(i as int), cfg.sigma_m),
            seen == n_observed(landings@.take(i as int)),
            used <= i,
            seen <= i,
        decreases landings.len() - i,
    {
        let b = landings[i];
        assert(landings@.take(i + 1).drop_last() =~= landings@.take(i as int));
        if b.distance.is_finite() {
            match b.log {
                Some(v) => if v >= OBSERVED_FP || v <= -OBSERVED_FP {
                    seen += 1;
                },
                None => {},
            }
            if !cfg.sigma_m.lt(b.distance) {
                used += 1;
            }
        }
        i += 1;
    }
    assert(landings@.take(i as int) =~= landings@);
    ScanMatchResult {
        pose: r.pose,
        residual_m: if used > 0 {
            residual_m
        } else {
            Single { bits: SINGLE_INFINITY }
        },
        iterations: r.iterations,
        converged: r.converged,
        n_beams_used: used,
        n_beams_valid: landings.len() as u32,
        n_beams_observed: seen,
    }
}

/// The refinement after some rounds, as long as rounds are left.
pub open spec fn run(cfg: ScanMatchConfig, initial: Pose2, rounds: Seq<Round>) -> Refinement
    decreases rounds.len(),
{
    if rounds.len() == 0 {
        first_refinement(cfg, initial)
    } else {
        let r = run(cfg, initial, rounds.drop_last());
        if r.done {
            r
        } else {
            after_round(cfg, r, rounds.last())
        }
    }
}

/// A refinement ends within the rounds allowed; one whose first round sees nothing
/// ends where it started, and one that converged is done.
pub proof fn law_refinement_is_bounded(cfg: ScanMatchConfig, initial: Pose2, rounds: Seq<Round>)
    ensures
        run(cfg, initial, rounds).iterations <= cfg.max_iters,
        !run(cfg, initial, rounds).done ==> run(cfg, initial, rounds).iterations == rounds.len()
            && rounds.len() < cfg.max_iters,
        rounds.len() >= cfg.max_iters ==> run(cfg, initial, rounds).done,
        run(cfg, initial, rounds).converged ==> run(cfg, initial, rounds).done,
        rounds.len() > 0 && !(rounds[0] is Stepped) ==> run(cfg, initial, rounds).pose == initial
            && run(cfg, initial, rounds).done,
    decreases rounds.len(),
{
    if rounds.len() > 0 {
        law_refinement_is_bounded(cfg, initial, rounds.drop_last());
        if rounds.len() > 1 {
            assert(rounds.drop_last()[0] == rounds[0]);
        }
    }
}

/// A beam informs exactly if its distance is a finite number not above the limit.
pub proof fn law_near_beams_inform(d: Single, sigma: Single)
    ensures
        d.bits % 0x8000_0000 >= 0x7F80_0000 ==> !informs(d, sigma),
        sigma.below(d) ==> !informs(d, sigma),
        d.bits % 0x8000_0000 < 0x7F80_0000 && d.at_most(sigma) ==> informs(d, sigma),
{
}

/// A round in which every beam ends too far from a wall, or whose system has no solution,
/// is the last and moves nothing. Any other takes the step it solved for, has converged
/// exactly if the step is shorter than the limits in both directions and in heading, and
/// is the last if it has converged or no round is left.
pub proof fn law_a_round_steps_or_ends(
    cfg: ScanMatchConfig,
    r: Refinement,
    distances: Seq<Single>,
    solved: Option<Step>,
    i: int,
)
    requires
        r.iterations < cfg.max_iters,
    ensures
        ({
            let next = after_round(cfg, r, round_of(cfg, distances, solved));
            &&& next.iterations == r.iterations + 1
            &&& (forall|k: int|
                0 <= k < distances.len() ==> (#[trigger] distances[k]).bits % 0x8000_0000
                    >= 0x7F80_0000 || cfg.sigma_m.below(distances[k])) || solved is None ==> {
                &&& next.done
                &&& next.pose == r.pose
                &&& next.converged == r.converged
            }
            &&& 0 <= i < distances.len() && distances[i].bits % 0x8000_0000 < 0x7F80_0000
                && !cfg.sigma_m.below(distances[i]) ==> (solved matches Some(step) ==> {
                &&& next.pose == step.pose
                &&& next.converged == (step.dx.without_sign().below(cfg.eps_translation_m)
                    && step.dy.without_sign().below(cfg.eps_translation_m)
                    && step.dyaw.without_sign().below(cfg.eps_rotation_rad))
                &&& next.done == (next.converged || r.iterations + 1 >= cfg.max_iters)
            })
        }),
{
    if 0 <= i < distances.len() && distances[i].bits % 0x8000_0000 < 0x7F80_0000
        && !cfg.sigma_m.below(distances[i]) {
        assert(informs(distances[i], cfg.sigma_m));
    }
    if forall|k: int|
        0 <= k < distances.len() ==> (#[trigger] distances[k]).bits % 0x8000_0000 >= 0x7F80_0000
            || cfg.sigma_m.below(distances[k]) {
        assert forall|k: int| 0 <= k < distances.len() implies !informs(
            #[trigger] distances[k],
            cfg.sigma_m,
        ) by {
            assert(distances[k].bits % 0x8000_0000 >= 0x7F80_0000 || cfg.sigma_m.below(
                distances[k],
            ));
        }
    }
}

/// A refinement starts where it is told to, with nothing done; without rounds it is over.
pub proof fn law_a_refinement_starts_at_its_pose(cfg: ScanMatchConfig, initial: Pose2)
    ensures
        first_refinement(cfg, initial).pose == initial,
        first_refinement(cfg, initial).iterations == 0,
        !first_refinement(cfg, initial).converged,
        first_refinement(cfg, initial).done <==> cfg.max_iters == 0,
{
}

/// The beams that count are counted one by one: one that informs the match in the first
/// count, and one that lands where the log-odds are at least half a unit from even, to
/// either side, in the second.
pub proof fn law_landings_are_counted_one_by_one(
    landings: Seq<Landing>,
    b: Landing,
    sigma: Single,
)
    ensures
        n_informing(Seq::<Landing>::empty(), sigma) == 0,
        n_observed(Seq::<Landing>::empty()) == 0,
        n_informing(landings.push(b), sigma) == n_informing(landings, sigma) + if b.distance.bits
            % 0x8000_0000 < 0x7F80_0000 && !sigma.below(b.distance) {
            1int
        } else {
            0
        },
        b.distance.bits % 0x8000_0000 >= 0x7F80_0000 || b.log is None ==> n_observed(
            landings.push(b),
        ) == n_observed(landings),
        b.log matches Some(v) ==> -50 < v < 50 ==> n_observed(landings.push(b)) == n_observed(
            landings,
        ),
        b.log matches Some(v) ==> (v >= 50 || v <= -50) && b.distance.bits % 0x8000_0000
            < 0x7F80_0000 ==> n_observed(landings.push(b)) == n_observed(landings) + 1,
{
    assert(landings.push(b).drop_last() =~= landings);
}

/// The corners of a point are the four cells of a square, row by row, and all of them lie
/// in the grid exactly if the square does.
pub proof fn law_corners_form_a_square(i0: int, j0: int, h: int, w: int)
    requires
        0 <= h,
        0 <= w,
    ensures
        corners(i0, j0, w).len() == 4,
        corners(i0, j0, w)[0] == i0 * w + j0,
        corners(i0, j0, w)[1] == corners(i0, j0, w)[0] + 1,
        corners(i0, j0, w)[2] == corners(i0, j0, w)[0] + w,
        corners(i0, j0, w)[3] == corners(i0, j0, w)[0] + w + 1,
        corners_inside(i0, j0, h, w) <==> 0 <= i0 <= h - 2 && 0 <= j0 <= w - 2,
{
    assert((i0 + 1) * w == i0 * w + w) by (nonlinear_arith);
}

} // verus!

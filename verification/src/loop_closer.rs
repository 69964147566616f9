//! Loop closure between submaps.
//!
//! When a submap closes, its stored scans are matched against older submaps nearby.
//! A closure moves every anchor of the graph, so it takes two witnesses: scans that
//! each match well, that agree on where the new submap belongs, and whose
//! correction is neither noise nor more than drift could have piled up.

use vstd::prelude::*;
use crate::ieee::{Single, SINGLE_INFINITY};
use crate::scan_matcher::{
    DEFAULT_EPS_BITS, DEFAULT_MAX_ITERS, DEFAULT_OCC_THRESHOLD, DEFAULT_PRIOR_BITS,
    DEFAULT_SIGMA_BITS, ScanMatchConfig,
};
use crate::submap::{Pose2, RawScan, Scan};

verus! {

#[derive(Debug, Clone, Copy, PartialEq, Eq, Structural)]
pub struct LoopCloserConfig {
    /// How far apart two anchors may be, in metres, to try a match at all.
    pub radius_m: Single,
    /// How many submaps right before the new one are left out.
    pub min_index_gap: usize,
    /// Largest residual of a match that counts.
    pub max_residual_m: Single,
    /// Fewest beams of a match that counts.
    pub min_beams_used: u32,
    pub sm: ScanMatchConfig,
    /// The window searched around the odometry's guess before refining.
    pub coarse_radius_m: Single,
    pub coarse_step_m: Single,
    pub coarse_yaw_half_rad: Single,
    pub coarse_yaw_step_rad: Single,
    /// The least that a loop edge claims to be off by.
    pub edge_sigma_xy: Single,
    pub edge_sigma_yaw: Single,
    /// How many scans are matched.
    pub verify_scans: usize,
    /// Fewest beams of a scan that may testify.
    pub min_witness_beams: usize,
    /// How far a scan's verdict may lie from the consensus.
    pub verify_max_spread_m: Single,
    pub verify_max_spread_rad: Single,
    /// Least share of the beams that must land where the older map has an opinion.
    pub min_coverage: Single,
    /// Scans are thinned to this many beams before matching.
    pub max_probe_beams: usize,
    /// Corrections below both of these fix nothing and are dropped.
    pub min_correction_m: Single,
    pub min_correction_rad: Single,
    /// The largest plausible correction: a base and so much per submap in between,
    /// up to a cap.
    pub max_correction_base_m: Single,
    pub max_correction_per_submap_m: Single,
    pub max_correction_cap_m: Single,
    pub max_correction_base_rad: Single,
    pub max_correction_per_submap_rad: Single,
    pub max_correction_cap_rad: Single,
}

/// The stock settings: a radius of a metre and a half, ten centimetres of residual,
/// three witnesses of a hundred and fifty beams each, corrections between four
/// centimetres and sixty. The prior is loose: it only steadies what the scan leaves
/// open.
pub open spec fn stock_config() -> LoopCloserConfig {
    LoopCloserConfig {
        radius_m: Single { bits: 0x3FC0_0000 },
        min_index_gap: 2,
        max_residual_m: Single { bits: 0x3DCC_CCCD },
        min_beams_used: 16,
        sm: ScanMatchConfig {
            max_iters: DEFAULT_MAX_ITERS,
            eps_translation_m: Single { bits: DEFAULT_EPS_BITS },
            eps_rotation_rad: Single { bits: DEFAULT_EPS_BITS },
            lambda: Single { bits: DEFAULT_EPS_BITS },
            sigma_m: Single { bits: DEFAULT_SIGMA_BITS },
            occ_threshold_fp: DEFAULT_OCC_THRESHOLD,
            prior_sigma_xy: Single { bits: DEFAULT_PRIOR_BITS },
            prior_sigma_yaw: Single { bits: 0x3EB3_3333 },
        },
        coarse_radius_m: Single { bits: 0x3F00_0000 },
        coarse_step_m: Single { bits: 0x3DCC_CCCD },
        coarse_yaw_half_rad: Single { bits: 0x3EB2_B8C2 },
        coarse_yaw_step_rad: Single { bits: 0x3DB2_B8C2 },
        edge_sigma_xy: Single { bits: 0x3D4C_CCCD },
        edge_sigma_yaw: Single { bits: 0x3CF5_C28F },
        verify_scans: 3,
        min_witness_beams: 150,
        verify_max_spread_m: Single { bits: 0x3D75_C28F },
        verify_max_spread_rad: Single { bits: 0x3D4C_CCCD },
        min_coverage: Single { bits: 0x3ECC_CCCD },
        max_probe_beams: 512,
        min_correction_m: Single { bits: 0x3D23_D70A },
        min_correction_rad: Single { bits: 0x3CF5_C28F },
        max_correction_base_m: Single { bits: 0x3D75_C28F },
        max_correction_per_submap_m: Single { bits: 0x3DA3_D70A },
        max_correction_cap_m: Single { bits: 0x3F19_999A },
        max_correction_base_rad: Single { bits: 0x3D4C_CCCD },
        max_correction_per_submap_rad: Single { bits: 0x3CF5_C28F },
        max_correction_cap_rad: Single { bits: 0x3EE6_6666 },
    }
}

impl Default for LoopCloserConfig {
    fn default() -> (cfg: Self)
        ensures
            cfg == stock_config(),
    {
        LoopCloserConfig {
            radius_m: Single { bits: 0x3FC0_0000 },
            min_index_gap: 2,
            max_residual_m: Single { bits: 0x3DCC_CCCD },
            min_beams_used: 16,
            sm: ScanMatchConfig {
                max_iters: DEFAULT_MAX_ITERS,
                eps_translation_m: Single { bits: DEFAULT_EPS_BITS },
                eps_rotation_rad: Single { bits: DEFAULT_EPS_BITS },
                lambda: Single { bits: DEFAULT_EPS_BITS },
                sigma_m: Single { bits: DEFAULT_SIGMA_BITS },
                occ_threshold_fp: DEFAULT_OCC_THRESHOLD,
                prior_sigma_xy: Single { bits: DEFAULT_PRIOR_BITS },
                prior_sigma_yaw: Single { bits: 0x3EB3_3333 },
            },
            coarse_radius_m: Single { bits: 0x3F00_0000 },
            coarse_step_m: Single { bits: 0x3DCC_CCCD },
            coarse_yaw_half_rad: Single { bits: 0x3EB2_B8C2 },
            coarse_yaw_step_rad: Single { bits: 0x3DB2_B8C2 },
            edge_sigma_xy: Single { bits: 0x3D4C_CCCD },
            edge_sigma_yaw: Single { bits: 0x3CF5_C28F },
            verify_scans: 3,
            min_witness_beams: 150,
            verify_max_spread_m: Single { bits: 0x3D75_C28F },
            verify_max_spread_rad: Single { bits: 0x3D4C_CCCD },
            min_coverage: Single { bits: 0x3ECC_CCCD },
            max_probe_beams: 512,
            min_correction_m: Single { bits: 0x3D23_D70A },
            min_correction_rad: Single { bits: 0x3CF5_C28F },
            max_correction_base_m: Single { bits: 0x3D75_C28F },
            max_correction_per_submap_m: Single { bits: 0x3DA3_D70A },
            max_correction_cap_m: Single { bits: 0x3F19_999A },
            max_correction_base_rad: Single { bits: 0x3D4C_CCCD },
            max_correction_per_submap_rad: Single { bits: 0x3CF5_C28F },
            max_correction_cap_rad: Single { bits: 0x3EE6_6666 },
        }
    }
}

/// A loop edge to be.
#[derive(Debug, Clone, Copy, PartialEq, Eq, Structural)]
pub struct LoopClosure {
    pub from_idx: usize,
    pub to_idx: usize,
    /// The pose of the newer anchor in the frame of the older.
    pub measurement: Pose2,
    /// The worst residual of the witnesses.
    pub residual_m: Single,
    /// The fewest beams that a witness used.
    pub n_beams_used: u32,
}

/// The older submaps worth a look from the one at `new_idx`: all but those closest
/// before it, and none when there are no scans to match.
pub open spec fn older_of(n: int, new_idx: int, scans: int, gap: int) -> Seq<int> {
    if new_idx == 0 || new_idx >= n || scans == 0 || gap >= new_idx {
        Seq::empty()
    } else {
        Seq::new((new_idx - gap) as nat, |k: int| k)
    }
}

/// The positions of the older submaps to try, in order.
pub fn candidates(n: usize, new_idx: usize, scans: usize, cfg: &LoopCloserConfig) -> (older: Vec<
    usize,
>)
    ensures
        older@.map_values(|k: usize| k as int) == older_of(
            n as int,
            new_idx as int,
            scans as int,
            cfg.min_index_gap as int,
        ),
{
    let mut older: Vec<usize> = Vec::new();
    if new_idx == 0 || new_idx >= n || scans == 0 || cfg.min_index_gap >= new_idx {
        assert(older@.map_values(|k: usize| k as int) =~= Seq::<int>::empty());
        return older;
    }
    let end: usize = new_idx - cfg.min_index_gap;
    let mut k: usize = 0;
    while k < end
        invariant
            k <= end,
            older@.len() == k,
            forall|i: int| 0 <= i < k ==> older@[i] == i,
        decreases end - k,
    {
        older.push(k);
        k += 1;
    }
    assert(older@.map_values(|k: usize| k as int) =~= Seq::new(end as nat, |k: int| k));
    older
}

/// The anchors are close enough to match.
pub open spec fn within_reach(cfg: LoopCloserConfig, distance: Single) -> bool {
    !cfg.radius_m.below(distance)
}

pub fn is_within_reach(cfg: &LoopCloserConfig, distance: Single) -> (r: bool)
    ensures
        r == within_reach(*cfg, distance),
{
    !cfg.radius_m.lt(distance)
}

/// Two stored scans are one observation: the same beams from the same place.
pub open spec fn same_observation(a: RawScan, b: RawScan) -> bool {
    &&& a.pose_in_submap.equals(b.pose_in_submap)
    &&& a.scan.beams@.len() == b.scan.beams@.len()
    &&& forall|i: int|
        0 <= i < a.scan.beams@.len() ==> (#[trigger] a.scan.beams@[i]).equals(b.scan.beams@[i])
}

fn is_same_observation(a: &RawScan, b: &RawScan) -> (r: bool)
    ensures
        r == same_observation(*a, *b),
{
    if !a.pose_in_submap.eq_value(b.pose_in_submap) {
        return false;
    }
    if a.scan.beams.len() != b.scan.beams.len() {
        return false;
    }
    let mut i: usize = 0;
    while i < a.scan.beams.len()
        invariant
            i <= a.scan.beams@.len(),
            a.scan.beams@.len() == b.scan.beams@.len(),
            forall|k: int|
                0 <= k < i ==> (#[trigger] a.scan.beams@[k]).equals(b.scan.beams@[k]),
        decreases a.scan.beams.len() - i,
    {
        if !a.scan.beams[i].eq_value(b.scan.beams[i]) {
            assert(!a.scan.beams@[i as int].equals(b.scan.beams@[i as int]));
            return false;
        }
        i += 1;
    }
    true
}

pub open spec fn size(scans: Seq<RawScan>, i: int) -> int {
    scans[i].scan.beams@.len() as int
}

/// The positions of the scans, largest first, and the earlier of equals first.
pub open spec fn is_size_order(order: Seq<usize>, scans: Seq<RawScan>) -> bool {
    &&& order.len() == scans.len()
    &&& forall|a: int| 0 <= a < order.len() ==> (#[trigger] order[a]) < scans.len()
    &&& forall|a: int, b: int|
        0 <= a < b < order.len() ==> goes_before(scans, #[trigger] order[a], #[trigger] order[b])
}

/// The scan at `i` comes before the one at `j`.
pub open spec fn goes_before(scans: Seq<RawScan>, i: usize, j: usize) -> bool {
    ||| size(scans, i as int) > size(scans, j as int)
    ||| size(scans, i as int) == size(scans, j as int) && i < j
}

/// Sorts the positions of the scans by size.
fn by_size(scans: &[RawScan]) -> (order: Vec<usize>)
    ensures
        is_size_order(order@, scans@),
{
    let mut order: Vec<usize> = Vec::new();
    let mut i: usize = 0;
    while i < scans.len()
        invariant
            i <= scans@.len(),
            order@.len() == i,
            forall|a: int| 0 <= a < order@.len() ==> (#[trigger] order@[a]) < i,
            forall|a: int, b: int|
                0 <= a < b < order@.len() ==> goes_before(
                    scans@,
                    #[trigger] order@[a],
                    #[trigger] order@[b],
                ),
        decreases scans.len() - i,
    {
        let n: usize = scans[i].scan.beams.len();
        let mut at: usize = order.len();
        while at > 0 && scans[order[at - 1]].scan.beams.len() < n
            invariant
                at <= order@.len(),
                i < scans@.len(),
                n == size(scans@, i as int),
                order@.len() == i,
                forall|a: int| 0 <= a < order@.len() ==> (#[trigger] order@[a]) < i,
                forall|a: int| at <= a < order@.len() ==> size(scans@, #[trigger] order@[a] as int) < n,
            decreases at,
        {
            at -= 1;
        }
        let ghost before = order@;
        proof {
            if at > 0 {
                assert(goes_before(scans@, before[at - 1], i));
                assert forall|a: int| 0 <= a < at implies goes_before(
                    scans@,
                    #[trigger] before[a],
                    i,
                ) by {
                    if a < at - 1 {
                        assert(goes_before(scans@, before[a], before[at - 1]));
                    }
                }
            }
        }
        order.insert(at, i);
        proof {
            assert forall|a: int, b: int| 0 <= a < b < order@.len() implies goes_before(
                scans@,
                #[trigger] order@[a],
                #[trigger] order@[b],
            ) by {
                let a0 = if a < at { a } else { a - 1 };
                let b0 = if b < at { b } else { b - 1 };
                if a != at && b != at {
                    assert(goes_before(scans@, before[a0], before[b0]));
                }
            }
        }
        i += 1;
    }
    order
}

/// One of the picked scans is the same observation as the one at `i`.
pub open spec fn already_heard(scans: Seq<RawScan>, picked: Seq<usize>, i: usize) -> bool {
    exists|k: int|
        0 <= k < picked.len() && same_observation(
            scans[#[trigger] picked[k] as int],
            scans[i as int],
        )
}

/// How many witnesses are heard at most.
pub open spec fn most_witnesses(cfg: LoopCloserConfig) -> int {
    if cfg.verify_scans < 1 {
        1
    } else {
        cfg.verify_scans as int
    }
}

/// The witnesses among scans considered in this order: those with enough beams, each
/// observation once, until there are enough.
pub open spec fn witnesses_of(
    cfg: LoopCloserConfig,
    scans: Seq<RawScan>,
    order: Seq<usize>,
) -> Seq<usize>
    decreases order.len(),
{
    if order.len() == 0 {
        Seq::empty()
    } else {
        let picked = witnesses_of(cfg, scans, order.drop_last());
        let i = order.last();
        if picked.len() >= most_witnesses(cfg) || size(scans, i as int) < cfg.min_witness_beams
            || already_heard(scans, picked, i) {
            picked
        } else {
            picked.push(i)
        }
    }
}

/// The scans that are matched: the witnesses among all scans, largest first.
pub open spec fn picked_of(cfg: LoopCloserConfig, scans: Seq<RawScan>) -> Seq<usize> {
    witnesses_of(cfg, scans, choose|order: Seq<usize>| is_size_order(order, scans))
}

/// Picks the scans to match: the strongest first, none too weak to mean anything,
/// and none that repeats another.
pub fn pick_witnesses(scans: &[RawScan], cfg: &LoopCloserConfig) -> (picked: Vec<usize>)
    ensures
        exists|order: Seq<usize>|
            is_size_order(order, scans@) && picked@ == #[trigger] witnesses_of(
                *cfg,
                scans@,
                order,
            ),
        forall|order: Seq<usize>|
            is_size_order(order, scans@) ==> picked@ == #[trigger] witnesses_of(
                *cfg,
                scans@,
                order,
            ),
        picked@ == picked_of(*cfg, scans@),
        forall|k: int| 0 <= k < picked@.len() ==> (#[trigger] picked@[k]) < scans@.len(),
{
    let order = by_size(scans);
    let most: usize = if cfg.verify_scans < 1 {
        1
    } else {
        cfg.verify_scans
    };
    let mut picked: Vec<usize> = Vec::new();
    let mut a: usize = 0;
    while a < order.len()
        invariant
            a <= order@.len(),
            is_size_order(order@, scans@),
            most == most_witnesses(*cfg),
            picked@ == witnesses_of(*cfg, scans@, order@.take(a as int)),
            forall|k: int| 0 <= k < picked@.len() ==> (#[trigger] picked@[k]) < scans@.len(),
        decreases order.len() - a,
    {
        let i: usize = order[a];
        assert(order@.take(a + 1).drop_last() =~= order@.take(a as int));
        if picked.len() < most && scans[i].scan.n_valid() >= cfg.min_witness_beams {
            let mut heard = false;
            let mut k: usize = 0;
            while k < picked.len() && !heard
                invariant
                    k <= picked@.len(),
                    i < scans@.len(),
                    forall|k: int| 0 <= k < picked@.len() ==> (#[trigger] picked@[k]) < scans@.len(),
                    heard ==> already_heard(scans@, picked@, i),
                    !heard ==> forall|j: int|
                        0 <= j < k ==> !same_observation(
                            scans@[#[trigger] picked@[j] as int],
                            scans@[i as int],
                        ),
                decreases picked.len() - k,
            {
                if is_same_observation(&scans[picked[k]], &scans[i]) {
                    heard = true;
                    assert(same_observation(scans@[picked@[k as int] as int], scans@[i as int]));
                }
                k += 1;
            }
            if !heard {
                picked.push(i);
            }
        }
        a += 1;
    }
    assert(order@.take(a as int) =~= order@);
    proof {
        assert forall|other: Seq<usize>| is_size_order(other, scans@) implies picked@
            == #[trigger] witnesses_of(*cfg, scans@, other) by {
            lemma_size_order_is_unique(other, order@, scans@);
        }
    }
    picked
}

proof fn lemma_size_order_has_all(order: Seq<usize>, scans: Seq<RawScan>, i: usize)
    requires
        is_size_order(order, scans),
        i < scans.len(),
    ensures
        order.contains(i),
{
    if !order.contains(i) {
        let picks = order.map_values(|x: usize| x as int);
        let room = vstd::set_lib::set_int_range(0, scans.len() as int).remove(i as int);
        vstd::set_lib::lemma_int_range(0, scans.len() as int);
        assert(picks.no_duplicates()) by {
            assert forall|a: int, b: int|
                0 <= a < picks.len() && 0 <= b < picks.len() && a != b implies picks[a]
                != picks[b] by {
                if a < b {
                    assert(goes_before(scans, order[a], order[b]));
                } else {
                    assert(goes_before(scans, order[b], order[a]));
                }
            }
        }
        picks.unique_seq_to_set();
        assert(picks.to_set().subset_of(room)) by {
            assert forall|x: int| picks.to_set().contains(x) implies room.contains(x) by {
                let a = choose|a: int| 0 <= a < picks.len() && picks[a] == x;
                assert(order[a] < scans.len());
                assert(order.contains(order[a]));
            }
        }
        vstd::set_lib::lemma_len_subset(picks.to_set(), room);
    }
}

proof fn lemma_size_order_is_unique(a: Seq<usize>, b: Seq<usize>, scans: Seq<RawScan>)
    requires
        is_size_order(a, scans),
        is_size_order(b, scans),
    ensures
        a == b,
{
    lemma_size_orders_agree(a, b, scans, a.len() as int);
    assert(a =~= b);
}

proof fn lemma_size_orders_agree(a: Seq<usize>, b: Seq<usize>, scans: Seq<RawScan>, n: int)
    requires
        is_size_order(a, scans),
        is_size_order(b, scans),
        0 <= n <= a.len(),
    ensures
        forall|k: int| 0 <= k < n ==> a[k] == b[k],
    decreases n,
{
    if n > 0 {
        lemma_size_orders_agree(a, b, scans, n - 1);
        let k = n - 1;
        if a[k] != b[k] {
            lemma_size_order_has_all(b, scans, a[k]);
            lemma_size_order_has_all(a, scans, b[k]);
            let p = choose|p: int| 0 <= p < b.len() && b[p] == a[k];
            let q = choose|q: int| 0 <= q < a.len() && a[q] == b[k];
            if p < k {
                assert(a[p] == a[k]);
                assert(goes_before(scans, a[p], a[k]));
            } else if q < k {
                assert(b[q] == b[k]);
                assert(goes_before(scans, b[q], b[k]));
            } else {
                assert(goes_before(scans, b[k], b[p]));
                assert(goes_before(scans, a[k], a[q]));
            }
        }
    }
}

/// The best of some scored poses.
#[derive(Debug, Clone, Copy, PartialEq, Eq, Structural)]
pub struct Scored {
    pub pose: Pose2,
    pub score: Single,
}

/// The pose with the lowest score and that score, the first of equals; the seed when
/// no score is below infinity.
pub open spec fn lowest(seed: Pose2, scored: Seq<Scored>) -> Scored
    decreases scored.len(),
{
    if scored.len() == 0 {
        Scored { pose: seed, score: Single { bits: SINGLE_INFINITY } }
    } else {
        let best = lowest(seed, scored.drop_last());
        if scored.last().score.below(best.score) {
            scored.last()
        } else {
            best
        }
    }
}

/// The pose to refine from: the best-scoring one of the window around the seed, or
/// the seed when the scan is empty or no score is below infinity.
pub fn coarse_search(scan: &Scan, seed: Pose2, scored: &[Scored]) -> (best: Pose2)
    ensures
        best == if scan.beams@.len() == 0 {
            seed
        } else {
            lowest(seed, scored@).pose
        },
{
    if scan.beams.len() == 0 {
        return seed;
    }
    let mut best = Scored { pose: seed, score: Single { bits: SINGLE_INFINITY } };
    let mut i: usize = 0;
    while i < scored.len()
        invariant
            i <= scored@.len(),
            best == lowest(seed, scored@.take(i as int)),
        decreases scored.len() - i,
    {
        assert(scored@.take(i + 1).drop_last() =~= scored@.take(i as int));
        if scored[i].score.lt(best.score) {
            best = scored[i];
        }
        i += 1;
    }
    assert(scored@.take(i as int) =~= scored@);
    best.pose
}

/// How one witness's match came out. `coverage` is the share of its beams that
/// landed where the older map has an opinion.
#[derive(Debug, Clone, Copy, PartialEq, Eq, Structural)]
pub struct Testimony {
    pub residual_m: Single,
    pub n_beams_used: u32,
    pub coverage: Single,
}

/// A witness's match is good enough.
pub open spec fn credible(cfg: LoopCloserConfig, t: Testimony) -> bool {
    &&& t.residual_m.finite()
    &&& !cfg.max_residual_m.below(t.residual_m)
    &&& t.n_beams_used >= cfg.min_beams_used
    &&& !t.coverage.below(cfg.min_coverage)
}

pub fn is_credible(cfg: &LoopCloserConfig, t: Testimony) -> (r: bool)
    ensures
        r == credible(*cfg, t),
{
    t.residual_m.is_finite() && !cfg.max_residual_m.lt(t.residual_m) && t.n_beams_used
        >= cfg.min_beams_used && !t.coverage.lt(cfg.min_coverage)
}

/// How far something lies from something else, in place and in heading.
#[derive(Debug, Clone, Copy, PartialEq, Eq, Structural)]
pub struct Gap {
    pub xy: Single,
    pub yaw: Single,
}

/// A witness's verdict lies near enough to the consensus.
pub open spec fn agrees(cfg: LoopCloserConfig, from_consensus: Gap) -> bool {
    from_consensus.xy.at_most(cfg.verify_max_spread_m) && from_consensus.yaw.at_most(
        cfg.verify_max_spread_rad,
    )
}

/// A correction fixes something, and no more than could have gone wrong.
pub open spec fn plausible(cfg: LoopCloserConfig, correction: Gap, allowed: Gap) -> bool {
    &&& !(correction.xy.below(cfg.min_correction_m) && correction.yaw.below(cfg.min_correction_rad))
    &&& !allowed.xy.below(correction.xy)
    &&& !allowed.yaw.below(correction.yaw)
}

/// The worst residual among the testimonies.
pub open spec fn worst_residual(ts: Seq<Testimony>) -> Single
    decreases ts.len(),
{
    if ts.len() == 0 {
        Single { bits: 0 }
    } else {
        worst_residual(ts.drop_last()).greater(ts.last().residual_m)
    }
}

/// The fewest beams among the testimonies.
pub open spec fn fewest_beams(ts: Seq<Testimony>) -> int
    decreases ts.len(),
{
    if ts.len() == 0 {
        u32::MAX as int
    } else {
        let rest = fewest_beams(ts.drop_last());
        if ts.last().n_beams_used < rest {
            ts.last().n_beams_used as int
        } else {
            rest
        }
    }
}

/// What the matches against one older submap came to.
#[derive(Debug)]
pub struct Evidence {
    /// One per picked scan.
    pub testimonies: Vec<Testimony>,
    /// Each verdict's distance from the consensus, one per picked scan.
    pub spread: Vec<Gap>,
    /// What the consensus changes about where the new anchor lies.
    pub correction: Gap,
    /// The most that it may change.
    pub allowed: Gap,
    /// The pose of the new anchor, by the consensus, in the frame of the older.
    pub measurement: Pose2,
}

/// The evidence closes the loop.
pub open spec fn closes(cfg: LoopCloserConfig, e: Evidence) -> bool {
    &&& e.testimonies@.len() >= 2
    &&& forall|k: int| 0 <= k < e.testimonies@.len() ==> credible(cfg, #[trigger] e.testimonies@[k])
    &&& forall|k: int| 0 <= k < e.spread@.len() ==> agrees(cfg, #[trigger] e.spread@[k])
    &&& plausible(cfg, e.correction, e.allowed)
}

/// The closure that evidence supports.
pub open spec fn closure_of(older_idx: usize, new_idx: usize, e: Evidence) -> LoopClosure {
    LoopClosure {
        from_idx: older_idx,
        to_idx: new_idx,
        measurement: e.measurement,
        residual_m: worst_residual(e.testimonies@),
        n_beams_used: fewest_beams(e.testimonies@) as u32,
    }
}

/// The closure that the evidence supports, if it supports one.
pub fn closure_for(older_idx: usize, new_idx: usize, e: &Evidence, cfg: &LoopCloserConfig) -> (
    closure: Option<LoopClosure>)
    requires
        e.spread@.len() == e.testimonies@.len(),
    ensures
        closure == if closes(*cfg, *e) {
            Some(closure_of(older_idx, new_idx, *e))
        } else {
            None
        },
{
    if e.testimonies.len() < 2 {
        return None;
    }
    let mut worst: Single = Single { bits: 0 };
    let mut fewest: u32 = u32::MAX;
    let mut k: usize = 0;
    while k < e.testimonies.len()
        invariant
            k <= e.testimonies@.len(),
            forall|j: int| 0 <= j < k ==> credible(*cfg, #[trigger] e.testimonies@[j]),
            worst == worst_residual(e.testimonies@.take(k as int)),
            fewest == fewest_beams(e.testimonies@.take(k as int)),
        decreases e.testimonies.len() - k,
    {
        let t = e.testimonies[k];
        assert(e.testimonies@.take(k + 1).drop_last() =~= e.testimonies@.take(k as int));
        if !is_credible(cfg, t) {
            assert(!credible(*cfg, e.testimonies@[k as int]));
            return None;
        }
        worst = worst.max(t.residual_m);
        if t.n_beams_used < fewest {
            fewest = t.n_beams_used;
        }
        k += 1;
    }
    assert(e.testimonies@.take(k as int) =~= e.testimonies@);
    let mut m: usize = 0;
    while m < e.spread.len()
        invariant
            m <= e.spread@.len(),
            forall|j: int| 0 <= j < m ==> agrees(*cfg, #[trigger] e.spread@[j]),
        decreases e.spread.len() - m,
    {
        let gap = e.spread[m];
        if !(gap.xy.le(cfg.verify_max_spread_m) && gap.yaw.le(cfg.verify_max_spread_rad)) {
            assert(!agrees(*cfg, e.spread@[m as int]));
            return None;
        }
        m += 1;
    }
    if e.correction.xy.lt(cfg.min_correction_m) && e.correction.yaw.lt(cfg.min_correction_rad) {
        return None;
    }
    if e.allowed.xy.lt(e.correction.xy) || e.allowed.yaw.lt(e.correction.yaw) {
        return None;
    }
    Some(
        LoopClosure {
            from_idx: older_idx,
            to_idx: new_idx,
            measurement: e.measurement,
            residual_m: worst,
            n_beams_used: fewest,
        },
    )
}

/// One older submap: how far its anchor is from the new one's, and what matching
/// against it gave, if it was matched.
#[derive(Debug)]
pub struct Trial {
    pub older_idx: usize,
    pub distance: Single,
    pub evidence: Option<Evidence>,
}

/// The closure that a trial ends in.
pub open spec fn closure_from(cfg: LoopCloserConfig, new_idx: usize, t: Trial) -> Option<
    LoopClosure,
> {
    match t.evidence {
        Some(e) => if within_reach(cfg, t.distance) && closes(cfg, e) {
            Some(closure_of(t.older_idx, new_idx, e))
        } else {
            None
        },
        None => None,
    }
}

/// The closures that the trials end in, in order.
pub open spec fn closures_of(cfg: LoopCloserConfig, new_idx: usize, trials: Seq<Trial>) -> Seq<
    LoopClosure,
>
    decreases trials.len(),
{
    if trials.len() == 0 {
        Seq::empty()
    } else {
        let rest = closures_of(cfg, new_idx, trials.drop_last());
        match closure_from(cfg, new_idx, trials.last()) {
            Some(c) => rest.push(c),
            None => rest,
        }
    }
}

/// The evidence is that of the picked witnesses, heard one after the other until one is
/// not credible, with a spread for each that was heard.
pub open spec fn heard(cfg: LoopCloserConfig, picked: Seq<usize>, e: Evidence) -> bool {
    &&& e.spread@.len() == e.testimonies@.len()
    &&& e.testimonies@.len() <= picked.len()
    &&& picked.len() >= 2 && e.testimonies@.len() < picked.len() ==> e.testimonies@.len() > 0
        && !credible(cfg, e.testimonies@.last())
}

/// The trial is complete: an older submap has been matched exactly if it is within reach,
/// and the picked witnesses have been heard.
pub open spec fn tried(cfg: LoopCloserConfig, picked: Seq<usize>, t: Trial) -> bool {
    &&& t.evidence is Some <==> within_reach(cfg, t.distance)
    &&& t.evidence matches Some(e) ==> heard(cfg, picked, e)
}

/// The loops that a freshly closed submap with these scans closes. There is one trial per
/// candidate, in order.
pub fn detect_loops(
    n: usize,
    new_idx: usize,
    scans: &[RawScan],
    trials: &[Trial],
    cfg: &LoopCloserConfig,
) -> (loops: Vec<LoopClosure>)
    requires
        trials@.map_values(|t: Trial| t.older_idx as int) == older_of(
            n as int,
            new_idx as int,
            scans@.len() as int,
            cfg.min_index_gap as int,
        ),
        forall|k: int|
            0 <= k < trials@.len() ==> tried(
                *cfg,
                picked_of(*cfg, scans@),
                #[trigger] trials@[k],
            ),
    ensures
        loops@ == closures_of(*cfg, new_idx, trials@),
        picked_of(*cfg, scans@).len() < 2 ==> loops@.len() == 0,
        forall|k: int|
            0 <= k < loops@.len() ==> {
                &&& (#[trigger] loops@[k]).to_idx == new_idx
                &&& loops@[k].from_idx + cfg.min_index_gap < new_idx
                &&& new_idx < n
            },
{
    let mut loops: Vec<LoopClosure> = Vec::new();
    let mut k: usize = 0;
    while k < trials.len()
        invariant
            k <= trials@.len(),
            trials@.map_values(|t: Trial| t.older_idx as int) == older_of(
                n as int,
                new_idx as int,
                scans@.len() as int,
                cfg.min_index_gap as int,
            ),
            forall|k: int|
                0 <= k < trials@.len() ==> tried(
                    *cfg,
                    picked_of(*cfg, scans@),
                    #[trigger] trials@[k],
                ),
            picked_of(*cfg, scans@).len() < 2 ==> loops@.len() == 0,
            loops@ == closures_of(*cfg, new_idx, trials@.take(k as int)),
            forall|k: int|
                0 <= k < loops@.len() ==> {
                    &&& (#[trigger] loops@[k]).to_idx == new_idx
                    &&& loops@[k].from_idx + cfg.min_index_gap < new_idx
                    &&& new_idx < n
                },
        decreases trials.len() - k,
    {
        assert(trials@.take(k + 1).drop_last() =~= trials@.take(k as int));
        let t = &trials[k];
        proof {
            let older = trials@.map_values(|t: Trial| t.older_idx as int);
            assert(older.len() == trials@.len());
            assert(older[k as int] == t.older_idx);
            assert(t.older_idx + cfg.min_index_gap < new_idx && new_idx < n);
        }
        match &t.evidence {
            Some(e) => {
                if is_within_reach(cfg, t.distance) {
                    match closure_for(t.older_idx, new_idx, e, cfg) {
                        Some(c) => loops.push(c),
                        None => {},
                    }
                }
            },
            None => {},
        }
        k += 1;
    }
    assert(trials@.take(k as int) =~= trials@);
    loops
}

/// The witnesses are as many different observations, each with enough beams, and no
/// more of them than asked for.
pub proof fn law_witnesses_are_independent(
    cfg: LoopCloserConfig,
    scans: Seq<RawScan>,
    order: Seq<usize>,
)
    requires
        is_size_order(order, scans),
    ensures
        witnesses_of(cfg, scans, order).len() <= most_witnesses(cfg),
        forall|k: int|
            0 <= k < witnesses_of(cfg, scans, order).len() ==> size(
                scans,
                #[trigger] witnesses_of(cfg, scans, order)[k] as int,
            ) >= cfg.min_witness_beams,
        forall|j: int, k: int|
            0 <= j < k < witnesses_of(cfg, scans, order).len() ==> !same_observation(
                scans[#[trigger] witnesses_of(cfg, scans, order)[j] as int],
                scans[#[trigger] witnesses_of(cfg, scans, order)[k] as int],
            ),
{
    lemma_witnesses(cfg, scans, order);
}

proof fn lemma_witnesses(cfg: LoopCloserConfig, scans: Seq<RawScan>, order: Seq<usize>)
    ensures
        witnesses_of(cfg, scans, order).len() <= most_witnesses(cfg),
        forall|k: int|
            0 <= k < witnesses_of(cfg, scans, order).len() ==> size(
                scans,
                #[trigger] witnesses_of(cfg, scans, order)[k] as int,
            ) >= cfg.min_witness_beams,
        forall|j: int, k: int|
            0 <= j < k < witnesses_of(cfg, scans, order).len() ==> !same_observation(
                scans[#[trigger] witnesses_of(cfg, scans, order)[j] as int],
                scans[#[trigger] witnesses_of(cfg, scans, order)[k] as int],
            ),
    decreases order.len(),
{
    if order.len() > 0 {
        lemma_witnesses(cfg, scans, order.drop_last());
    }
}

/// A closure always rests on two credible witnesses or more, and never corrects by
/// more than was allowed.
pub proof fn law_a_lone_witness_closes_nothing(cfg: LoopCloserConfig, e: Evidence)
    requires
        e.testimonies@.len() < 2 || e.allowed.xy.below(e.correction.xy) || e.allowed.yaw.below(
            e.correction.yaw,
        ),
    ensures
        !closes(cfg, e),
{
}

/// Evidence that closes a loop has no bad witness in it: every residual is finite and not
/// above the limit, every match used enough beams and covered enough of them, every
/// verdict lies within the spread, and the correction is neither noise nor implausible.
pub proof fn law_one_bad_witness_stops_a_closure(cfg: LoopCloserConfig, e: Evidence, k: int)
    requires
        closes(cfg, e),
    ensures
        e.testimonies@.len() >= 2,
        0 <= k < e.testimonies@.len() ==> {
            &&& e.testimonies@[k].residual_m.finite()
            &&& !cfg.max_residual_m.below(e.testimonies@[k].residual_m)
            &&& e.testimonies@[k].n_beams_used >= cfg.min_beams_used
            &&& !e.testimonies@[k].coverage.below(cfg.min_coverage)
        },
        0 <= k < e.spread@.len() ==> {
            &&& e.spread@[k].xy.at_most(cfg.verify_max_spread_m)
            &&& e.spread@[k].yaw.at_most(cfg.verify_max_spread_rad)
        },
        !e.correction.xy.below(cfg.min_correction_m) || !e.correction.yaw.below(
            cfg.min_correction_rad,
        ),
        !e.allowed.xy.below(e.correction.xy),
        !e.allowed.yaw.below(e.correction.yaw),
{
    if 0 <= k < e.testimonies@.len() {
        assert(credible(cfg, e.testimonies@[k]));
    }
    if 0 <= k < e.spread@.len() {
        assert(agrees(cfg, e.spread@[k]));
    }
}

/// Two or more good witnesses that agree on a correction worth making, and no larger than
/// allowed, close the loop.
pub proof fn law_good_witnesses_that_agree_close(cfg: LoopCloserConfig, e: Evidence)
    requires
        e.testimonies@.len() >= 2,
        forall|k: int|
            #![trigger e.testimonies@[k]]
            0 <= k < e.testimonies@.len() ==> {
                &&& e.testimonies@[k].residual_m.finite()
                &&& e.testimonies@[k].residual_m.at_most(cfg.max_residual_m)
                &&& e.testimonies@[k].n_beams_used >= cfg.min_beams_used
                &&& cfg.min_coverage.at_most(e.testimonies@[k].coverage)
            },
        forall|k: int|
            #![trigger e.spread@[k]]
            0 <= k < e.spread@.len() ==> {
                &&& e.spread@[k].xy.at_most(cfg.verify_max_spread_m)
                &&& e.spread@[k].yaw.at_most(cfg.verify_max_spread_rad)
            },
        cfg.min_correction_m.at_most(e.correction.xy) || cfg.min_correction_rad.at_most(
            e.correction.yaw,
        ),
        e.correction.xy.at_most(e.allowed.xy),
        e.correction.yaw.at_most(e.allowed.yaw),
    ensures
        closes(cfg, e),
{
}

/// A closure names the two submaps and the consensus it was made from; its residual is
/// that of a witness, no witness has a larger one, and it is not above the limit; its
/// beams are those of a witness, and no witness used fewer.
pub proof fn law_a_closure_reports_its_weakest_witness(
    cfg: LoopCloserConfig,
    older_idx: usize,
    new_idx: usize,
    e: Evidence,
    k: int,
)
    requires
        closes(cfg, e),
        0 <= k < e.testimonies@.len(),
        forall|j: int|
            0 <= j < e.testimonies@.len() ==> (Single { bits: 0 }).at_most(
                (#[trigger] e.testimonies@[j]).residual_m,
            ),
    ensures
        ({
            let c = closure_of(older_idx, new_idx, e);
            &&& c.from_idx == older_idx
            &&& c.to_idx == new_idx
            &&& c.measurement == e.measurement
            &&& e.testimonies@[k].residual_m.at_most(c.residual_m)
            &&& !cfg.max_residual_m.below(c.residual_m)
            &&& c.n_beams_used <= e.testimonies@[k].n_beams_used
            &&& c.n_beams_used >= cfg.min_beams_used
            &&& exists|j: int|
                0 <= j < e.testimonies@.len() && (#[trigger] e.testimonies@[j]).n_beams_used
                    == c.n_beams_used
            &&& c.residual_m.bits == 0 || exists|j: int|
                0 <= j < e.testimonies@.len() && (#[trigger] e.testimonies@[j]).residual_m
                    == c.residual_m
        }),
{
    lemma_worst_and_fewest(e.testimonies@, k);
    let c = closure_of(older_idx, new_idx, e);
    assert(credible(cfg, e.testimonies@[k]));
    let j = choose|j: int|
        0 <= j < e.testimonies@.len() && (#[trigger] e.testimonies@[j]).n_beams_used
            == fewest_beams(e.testimonies@);
    assert(credible(cfg, e.testimonies@[j]));
    if c.residual_m.bits != 0 {
        let i = choose|i: int|
            0 <= i < e.testimonies@.len() && (#[trigger] e.testimonies@[i]).residual_m
                == worst_residual(e.testimonies@);
        assert(credible(cfg, e.testimonies@[i]));
    } else {
        assert(c.residual_m.at_most(e.testimonies@[k].residual_m));
    }
}

proof fn lemma_worst_and_fewest(ts: Seq<Testimony>, k: int)
    requires
        0 <= k < ts.len(),
        forall|j: int|
            0 <= j < ts.len() ==> (Single { bits: 0 }).at_most((#[trigger] ts[j]).residual_m),
    ensures
        ts[k].residual_m.at_most(worst_residual(ts)),
        fewest_beams(ts) <= ts[k].n_beams_used,
        exists|j: int| 0 <= j < ts.len() && (#[trigger] ts[j]).n_beams_used == fewest_beams(ts),
        worst_residual(ts).bits == 0 || exists|j: int|
            0 <= j < ts.len() && (#[trigger] ts[j]).residual_m == worst_residual(ts),
    decreases ts.len(),
{
    let front = ts.drop_last();
    assert forall|j: int| 0 <= j < front.len() implies (Single { bits: 0 }).at_most(
        (#[trigger] front[j]).residual_m,
    ) by {
        assert(front[j] == ts[j]);
    }
    assert((Single { bits: 0 }).at_most(ts.last().residual_m));
    if front.len() > 0 {
        lemma_worst_and_fewest(front, if k < front.len() { k } else { 0 });
        let j = choose|j: int|
            0 <= j < front.len() && (#[trigger] front[j]).n_beams_used == fewest_beams(front);
        assert(ts[j] == front[j]);
        assert(ts[k] == if k < front.len() { front[k] } else { ts.last() });
    }
    assert(ts[ts.len() - 1] == ts.last());
    assert(worst_residual(ts) == worst_residual(front) || worst_residual(ts) == ts[ts.len()
        - 1].residual_m);
    if worst_residual(ts).bits != 0 && worst_residual(ts) != ts[ts.len() - 1].residual_m {
        assert(front.len() > 0);
        let i = choose|i: int|
            0 <= i < front.len() && (#[trigger] front[i]).residual_m == worst_residual(front);
        assert(ts[i].residual_m == worst_residual(ts));
    }
}

/// Every closure comes from a trial whose anchor is not beyond the radius and whose
/// evidence closes; and every such trial gives its closure.
pub proof fn law_closures_come_from_trials_in_reach(
    cfg: LoopCloserConfig,
    new_idx: usize,
    trials: Seq<Trial>,
    c: LoopClosure,
)
    ensures
        closures_of(cfg, new_idx, trials).len() <= trials.len(),
        closures_of(cfg, new_idx, trials).contains(c) <==> exists|k: int|
            #![trigger trials[k]]
            {
                &&& 0 <= k < trials.len()
                &&& !cfg.radius_m.below(trials[k].distance)
                &&& trials[k].evidence matches Some(e) && closes(cfg, e) && c == closure_of(
                    trials[k].older_idx,
                    new_idx,
                    e,
                )
            },
    decreases trials.len(),
{
    let all = closures_of(cfg, new_idx, trials);
    if trials.len() > 0 {
        let front = trials.drop_last();
        let rest = closures_of(cfg, new_idx, front);
        law_closures_come_from_trials_in_reach(cfg, new_idx, front, c);
        assert(forall|k: int| 0 <= k < front.len() ==> front[k] == #[trigger] trials[k]);
        if all.contains(c) {
            let p = choose|p: int| 0 <= p < all.len() && all[p] == c;
            if p < rest.len() {
                assert(rest[p] == c);
                let k = choose|k: int|
                    #![trigger front[k]]
                    {
                        &&& 0 <= k < front.len()
                        &&& !cfg.radius_m.below(front[k].distance)
                        &&& front[k].evidence matches Some(e) && closes(cfg, e) && c == closure_of(
                            front[k].older_idx,
                            new_idx,
                            e,
                        )
                    };
                assert(trials[k] == front[k]);
            } else {
                assert(trials[trials.len() - 1] == trials.last());
            }
        }
        if exists|k: int|
            #![trigger trials[k]]
            {
                &&& 0 <= k < trials.len()
                &&& !cfg.radius_m.below(trials[k].distance)
                &&& trials[k].evidence matches Some(e) && closes(cfg, e) && c == closure_of(
                    trials[k].older_idx,
                    new_idx,
                    e,
                )
            } {
            let k = choose|k: int|
                #![trigger trials[k]]
                {
                    &&& 0 <= k < trials.len()
                    &&& !cfg.radius_m.below(trials[k].distance)
                    &&& trials[k].evidence matches Some(e) && closes(cfg, e) && c == closure_of(
                        trials[k].older_idx,
                        new_idx,
                        e,
                    )
                };
            if k < front.len() {
                assert(front[k] == trials[k]);
                assert(rest.contains(c));
                let p = choose|p: int| 0 <= p < rest.len() && rest[p] == c;
                assert(all[p] == c);
            } else {
                assert(all.last() == c);
            }
        }
    }
}

/// An older submap is tried exactly if more than the gap lies between it and the new one,
/// which must be one of the submaps and have scans; they are tried oldest first.
pub proof fn law_recent_submaps_are_left_out(n: int, new_idx: int, scans: int, gap: int, k: int)
    requires
        0 <= n,
        0 <= new_idx,
        0 <= scans,
        0 <= gap,
    ensures
        older_of(n, new_idx, scans, gap).contains(k) <==> 0 <= k && k + gap < new_idx < n && scans > 0,
        0 <= k < older_of(n, new_idx, scans, gap).len() ==> older_of(n, new_idx, scans, gap)[k] == k,
{
    let older = older_of(n, new_idx, scans, gap);
    if 0 <= k && k + gap < new_idx < n && scans > 0 {
        assert(older[k] == k);
    }
}

// What holds of the witnesses among the scans that come first.
proof fn lemma_strongest(cfg: LoopCloserConfig, scans: Seq<RawScan>, order: Seq<usize>, a: int, n: int)
    requires
        is_size_order(order, scans),
        0 <= a < n <= order.len(),
    ensures
        ({
            let picked = witnesses_of(cfg, scans, order.take(n));
            let i = order[a] as int;
            scans[i].scan.beams@.len() >= cfg.min_witness_beams && (forall|k: int|
                0 <= k < picked.len() ==> !same_observation(
                    scans[#[trigger] picked[k] as int],
                    scans[i],
                )) ==> picked.len() >= most_witnesses(cfg) && forall|k: int|
                0 <= k < picked.len() ==> scans[#[trigger] picked[k] as int].scan.beams@.len()
                    >= scans[i].scan.beams@.len()
        }) || witnesses_of(cfg, scans, order.take(n)).contains(order[a]),
    decreases n,
{
    let picked = witnesses_of(cfg, scans, order.take(n));
    let before = witnesses_of(cfg, scans, order.take(n - 1));
    assert(order.take(n).drop_last() =~= order.take(n - 1));
    assert(order.take(n).last() == order[n - 1]);
    let i = order[a];
    lemma_picked_come_first(cfg, scans, order, n - 1);
    if a == n - 1 {
        if picked == before.push(i) && !(before.len() >= most_witnesses(cfg) || size(
            scans,
            i as int,
        ) < cfg.min_witness_beams || already_heard(scans, before, i)) {
            assert(picked.last() == i);
        } else {
            assert(picked == before);
            assert forall|k: int| 0 <= k < picked.len() implies scans[#[trigger] picked[k] as int].scan.beams@.len()
                >= scans[i as int].scan.beams@.len() by {
                let p = choose|p: int| 0 <= p < n - 1 && order[p] == picked[k];
                assert(goes_before(scans, order[p], order[a]));
            }
        }
    } else {
        lemma_strongest(cfg, scans, order, a, n - 1);
        if before.contains(i) {
            let p = choose|p: int| 0 <= p < before.len() && before[p] == i;
            assert(picked[p] == i);
        } else if picked != before {
            assert(picked == before.push(order[n - 1]));
            assert forall|k: int| 0 <= k < before.len() implies before[k] == #[trigger] picked[k] by {}
            if scans[i as int].scan.beams@.len() >= cfg.min_witness_beams && (forall|k: int|
                0 <= k < picked.len() ==> !same_observation(
                    scans[#[trigger] picked[k] as int],
                    scans[i as int],
                )) {
                assert forall|k: int| 0 <= k < before.len() implies !same_observation(
                    scans[#[trigger] before[k] as int],
                    scans[i as int],
                ) by {
                    assert(picked[k] == before[k]);
                }
            }
        }
    }
}

proof fn lemma_picked_come_first(cfg: LoopCloserConfig, scans: Seq<RawScan>, order: Seq<usize>, n: int)
    requires
        0 <= n <= order.len(),
    ensures
        forall|k: int|
            #![trigger witnesses_of(cfg, scans, order.take(n))[k]]
            0 <= k < witnesses_of(cfg, scans, order.take(n)).len() ==> exists|p: int|
                0 <= p < n && order[p] == witnesses_of(cfg, scans, order.take(n))[k],
    decreases n,
{
    if n > 0 {
        lemma_picked_come_first(cfg, scans, order, n - 1);
        assert(order.take(n).drop_last() =~= order.take(n - 1));
        let picked = witnesses_of(cfg, scans, order.take(n));
        let before = witnesses_of(cfg, scans, order.take(n - 1));
        assert forall|k: int| #![trigger picked[k]] 0 <= k < picked.len() implies exists|p: int|
            0 <= p < n && order[p] == picked[k] by {
            if k < before.len() {
                assert(picked[k] == before[k]);
            } else {
                assert(order[n - 1] == picked[k]);
            }
        }
    }
}

/// The strongest testify: a scan with enough beams that is not picked either repeats a
/// picked one, or as many as are heard have been picked and none of them is smaller.
pub proof fn law_the_strongest_witnesses_are_picked(
    cfg: LoopCloserConfig,
    scans: Seq<RawScan>,
    order: Seq<usize>,
    i: usize,
)
    requires
        is_size_order(order, scans),
        i < scans.len(),
        scans[i as int].scan.beams@.len() >= cfg.min_witness_beams,
        !witnesses_of(cfg, scans, order).contains(i),
        forall|k: int|
            0 <= k < witnesses_of(cfg, scans, order).len() ==> !same_observation(
                scans[#[trigger] witnesses_of(cfg, scans, order)[k] as int],
                scans[i as int],
            ),
    ensures
        witnesses_of(cfg, scans, order).len() >= cfg.verify_scans,
        witnesses_of(cfg, scans, order).len() >= 1,
        forall|k: int|
            0 <= k < witnesses_of(cfg, scans, order).len() ==> scans[#[trigger] witnesses_of(
                cfg,
                scans,
                order,
            )[k] as int].scan.beams@.len() >= scans[i as int].scan.beams@.len(),
{
    lemma_size_order_has_all(order, scans, i);
    let a = choose|a: int| 0 <= a < order.len() && order[a] == i;
    assert(order.take(order.len() as int) =~= order);
    lemma_strongest(cfg, scans, order, a, order.len() as int);
}

/// At least one witness may be heard, and no more than asked for beyond that; all of them
/// have as many beams as a witness needs.
pub proof fn law_weak_witnesses_are_not_heard(
    cfg: LoopCloserConfig,
    scans: Seq<RawScan>,
    order: Seq<usize>,
    k: int,
)
    ensures
        witnesses_of(cfg, scans, order).len() <= 1 || witnesses_of(cfg, scans, order).len()
            <= cfg.verify_scans,
        0 <= k < witnesses_of(cfg, scans, order).len() ==> scans[witnesses_of(
            cfg,
            scans,
            order,
        )[k] as int].scan.beams@.len() >= cfg.min_witness_beams,
{
    lemma_witnesses(cfg, scans, order);
    if 0 <= k < witnesses_of(cfg, scans, order).len() {
        assert(size(scans, witnesses_of(cfg, scans, order)[k] as int) >= cfg.min_witness_beams);
    }
}

/// The pose to refine from has a score that no scored pose is below, and it is one of the
/// scored poses, the first with that score, unless no score is below infinity.
pub proof fn law_coarse_search_takes_the_lowest_score(seed: Pose2, scored: Seq<Scored>, k: int)
    requires
        0 <= k < scored.len(),
    ensures
        !scored[k].score.below(lowest(seed, scored).score),
        (scored[k].score.bits < 0x7F80_0000) ==> exists|j: int|
            #![trigger scored[j]]
            {
                &&& 0 <= j < scored.len()
                &&& scored[j] == lowest(seed, scored)
                &&& forall|m: int|
                    0 <= m < j ==> !(#[trigger] scored[m]).score.at_most(scored[j].score)
            },
        (forall|m: int| 0 <= m < scored.len() ==> (#[trigger] scored[m]).score.bits == 0x7F80_0000)
            ==> lowest(seed, scored).pose == seed,
    decreases scored.len(),
{
    lemma_lowest(seed, scored);
    if forall|m: int| 0 <= m < scored.len() ==> (#[trigger] scored[m]).score.bits == 0x7F80_0000 {
        lemma_lowest_is_seed(seed, scored);
    }
}

proof fn lemma_lowest_is_seed(seed: Pose2, scored: Seq<Scored>)
    requires
        forall|m: int| 0 <= m < scored.len() ==> (#[trigger] scored[m]).score.bits == 0x7F80_0000,
    ensures
        lowest(seed, scored) == (Scored { pose: seed, score: Single { bits: 0x7F80_0000 } }),
    decreases scored.len(),
{
    if scored.len() > 0 {
        let front = scored.drop_last();
        assert forall|m: int| 0 <= m < front.len() implies (#[trigger] front[m]).score.bits
            == 0x7F80_0000 by {
            assert(front[m] == scored[m]);
        }
        lemma_lowest_is_seed(seed, front);
        assert(scored[scored.len() - 1].score.bits == 0x7F80_0000);
    }
}

proof fn lemma_lowest(seed: Pose2, scored: Seq<Scored>)
    ensures
        !lowest(seed, scored).score.nan(),
        lowest(seed, scored).score.at_most(Single { bits: 0x7F80_0000 }),
        forall|k: int|
            0 <= k < scored.len() ==> !(#[trigger] scored[k]).score.below(
                lowest(seed, scored).score,
            ),
        lowest(seed, scored) == (Scored { pose: seed, score: Single { bits: 0x7F80_0000 } })
            || exists|j: int|
            #![trigger scored[j]]
            {
                &&& 0 <= j < scored.len()
                &&& scored[j] == lowest(seed, scored)
                &&& forall|m: int|
                    0 <= m < j ==> !(#[trigger] scored[m]).score.at_most(scored[j].score)
            },
    decreases scored.len(),
{
    if scored.len() > 0 {
        let front = scored.drop_last();
        let best = lowest(seed, front);
        let all = lowest(seed, scored);
        lemma_lowest(seed, front);
        let last = scored.len() - 1;
        assert forall|k: int| 0 <= k < scored.len() implies !(#[trigger] scored[k]).score.below(
            all.score,
        ) by {
            if k < last {
                assert(front[k] == scored[k]);
            }
        }
        if scored.last().score.below(best.score) {
            assert(scored[last] == all);
            assert forall|m: int| 0 <= m < last implies !(#[trigger] scored[m]).score.at_most(
                scored[last].score,
            ) by {
                assert(front[m] == scored[m]);
            }
        } else if best != (Scored { pose: seed, score: Single { bits: 0x7F80_0000 } }) {
            let j = choose|j: int|
                #![trigger front[j]]
                {
                    &&& 0 <= j < front.len()
                    &&& front[j] == best
                    &&& forall|m: int|
                        0 <= m < j ==> !(#[trigger] front[m]).score.at_most(front[j].score)
                };
            assert(scored[j] == all);
            assert forall|m: int| 0 <= m < j implies !(#[trigger] scored[m]).score.at_most(
                scored[j].score,
            ) by {
                assert(front[m] == scored[m]);
            }
        }
    }
}

/// Every picked witness is heard unless one of them fails, and then none is heard after
/// it.
pub proof fn law_witnesses_are_heard_until_one_fails(
    cfg: LoopCloserConfig,
    picked: Seq<usize>,
    t: Trial,
)
    requires
        tried(cfg, picked, t),
        picked.len() >= 2,
    ensures
        t.evidence is Some <==> !cfg.radius_m.below(t.distance),
        t.evidence matches Some(e) ==> {
            &&& 0 < e.testimonies@.len() <= picked.len()
            &&& e.spread@.len() == e.testimonies@.len()
            &&& e.testimonies@.len() < picked.len() ==> {
                let last = e.testimonies@[e.testimonies@.len() - 1];
                ||| last.residual_m.bits % 0x8000_0000 >= 0x7F80_0000
                ||| cfg.max_residual_m.below(last.residual_m)
                ||| last.n_beams_used < cfg.min_beams_used
                ||| last.coverage.below(cfg.min_coverage)
            }
        },
{
}

/// A closure rests on every witness that was picked: none is left unheard, and each of
/// them is good.
pub proof fn law_a_closure_rests_on_every_witness(
    cfg: LoopCloserConfig,
    picked: Seq<usize>,
    t: Trial,
    new_idx: usize,
    k: int,
)
    requires
        tried(cfg, picked, t),
        picked.len() >= 2,
        closure_from(cfg, new_idx, t) is Some,
        0 <= k < picked.len(),
    ensures
        t.evidence matches Some(e) && {
            &&& e.testimonies@.len() == picked.len()
            &&& e.testimonies@[k].residual_m.bits % 0x8000_0000 < 0x7F80_0000
            &&& !cfg.max_residual_m.below(e.testimonies@[k].residual_m)
            &&& e.testimonies@[k].n_beams_used >= cfg.min_beams_used
            &&& !e.testimonies@[k].coverage.below(cfg.min_coverage)
            &&& e.spread@[k].xy.at_most(cfg.verify_max_spread_m)
            &&& e.spread@[k].yaw.at_most(cfg.verify_max_spread_rad)
        },
{
    let e = t.evidence->0;
    assert(closes(cfg, e));
    if e.testimonies@.len() < picked.len() {
        assert(credible(cfg, e.testimonies@[e.testimonies@.len() - 1]));
    }
    assert(credible(cfg, e.testimonies@[k]));
    assert(agrees(cfg, e.spread@[k]));
}

/// What the stock settings ask of a witness and of a correction, for positive numbers
/// told by their bits: a residual of at most a tenth of a metre over sixteen beams that
/// cover four tenths, within six centimetres and a twentieth of a radian of the
/// consensus, and a metre and a half between the anchors.
pub proof fn law_stock_demands(t: Testimony, gap: Gap, distance: Single)
    requires
        t.residual_m.bits < 0x7F80_0000,
        t.coverage.bits < 0x7F80_0000,
        gap.xy.bits < 0x7F80_0000,
        gap.yaw.bits < 0x7F80_0000,
        distance.bits < 0x7F80_0000,
    ensures
        credible(stock_config(), t) <==> t.residual_m.bits <= 0x3DCC_CCCD && t.n_beams_used >= 16
            && t.coverage.bits >= 0x3ECC_CCCD,
        agrees(stock_config(), gap) <==> gap.xy.bits <= 0x3D75_C28F && gap.yaw.bits <= 0x3D4C_CCCD,
        within_reach(stock_config(), distance) <==> distance.bits <= 0x3FC0_0000,
        plausible(stock_config(), gap, gap) <==> gap.xy.bits >= 0x3D23_D70A || gap.yaw.bits
            >= 0x3CF5_C28F,
        most_witnesses(stock_config()) == 3,
        stock_config().min_witness_beams == 150,
        stock_config().min_index_gap == 2,
{
}

/// The stock search and the growth of what is allowed: the coarse window is half a metre
/// and twenty degrees wide either way, in steps of a tenth of a metre and five degrees,
/// and a correction may grow with the submaps in between up to a cap.
pub proof fn law_stock_search_window()
    ensures
        ({
            let cfg = stock_config();
            &&& cfg.coarse_radius_m.bits == 0x3F00_0000
            &&& cfg.coarse_step_m.bits == 0x3DCC_CCCD
            &&& cfg.coarse_step_m.below(cfg.coarse_radius_m)
            &&& cfg.coarse_yaw_half_rad.bits == 0x3EB2_B8C2
            &&& cfg.coarse_yaw_step_rad.bits == 0x3DB2_B8C2
            &&& cfg.coarse_yaw_step_rad.below(cfg.coarse_yaw_half_rad)
            &&& cfg.edge_sigma_xy.bits == 0x3D4C_CCCD
            &&& cfg.edge_sigma_yaw.bits == 0x3CF5_C28F
            &&& cfg.max_probe_beams == 512
            &&& cfg.max_correction_base_m.bits == 0x3D75_C28F
            &&& cfg.max_correction_per_submap_m.bits == 0x3DA3_D70A
            &&& cfg.max_correction_cap_m.bits == 0x3F19_999A
            &&& cfg.max_correction_base_m.below(cfg.max_correction_cap_m)
            &&& cfg.max_correction_base_rad.bits == 0x3D4C_CCCD
            &&& cfg.max_correction_per_submap_rad.bits == 0x3CF5_C28F
            &&& cfg.max_correction_cap_rad.bits == 0x3EE6_6666
            &&& cfg.max_correction_base_rad.below(cfg.max_correction_cap_rad)
            &&& cfg.sm.max_iters == 12
            &&& cfg.sm.eps_translation_m.bits == 0x3A83_126F
            &&& cfg.sm.eps_rotation_rad.bits == 0x3A83_126F
            &&& cfg.sm.lambda.bits == 0x3A83_126F
            &&& cfg.sm.sigma_m.bits == 0x3E99_999A
            &&& cfg.sm.occ_threshold_fp == 200
            &&& cfg.sm.prior_sigma_xy.bits == 0x3F00_0000
            &&& cfg.sm.prior_sigma_yaw.bits == 0x3EB3_3333
        }),
{
}

/// Two scans are one observation only when they come from the same place and have the
/// same beams, as many and each equal to its counterpart; an equal copy always is one.
pub proof fn law_only_equal_scans_are_one_observation(a: RawScan, b: RawScan, i: int)
    ensures
        !a.pose_in_submap.x.equals(b.pose_in_submap.x) ==> !same_observation(a, b),
        !a.pose_in_submap.y.equals(b.pose_in_submap.y) ==> !same_observation(a, b),
        !a.pose_in_submap.yaw.equals(b.pose_in_submap.yaw) ==> !same_observation(a, b),
        a.scan.beams@.len() != b.scan.beams@.len() ==> !same_observation(a, b),
        0 <= i < a.scan.beams@.len() && !(a.scan.beams@[i].end.x.equals(b.scan.beams@[i].end.x)
            && a.scan.beams@[i].end.y.equals(b.scan.beams@[i].end.y)
            && a.scan.beams@[i].origin.x.equals(b.scan.beams@[i].origin.x)
            && a.scan.beams@[i].origin.y.equals(b.scan.beams@[i].origin.y)) ==> !same_observation(
            a,
            b,
        ),
        a.pose_in_submap.equals(b.pose_in_submap) && a.scan.beams@.len() == b.scan.beams@.len() && (
        forall|k: int|
            0 <= k < a.scan.beams@.len() ==> (#[trigger] a.scan.beams@[k]).equals(
                b.scan.beams@[k],
            )) ==> same_observation(a, b),
{
    if 0 <= i < a.scan.beams@.len() && same_observation(a, b) {
        assert(a.scan.beams@[i].equals(b.scan.beams@[i]));
    }
}

} // verus!

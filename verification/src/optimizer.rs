//! The iteration of the pose-graph optimiser.
//!
//! Each round linearises the edges, solves for an increment per node and applies
//! it. The linear algebra is the caller's; what the rounds decide is here: when
//! there is anything to do, which rows are pinned, which row to pivot on, which
//! nodes move, and when to stop.

use vstd::prelude::*;
use crate::ieee::{Double, Single};
use crate::pose_graph::{PoseGraph, PoseNode};
use crate::submap::Pose2;

verus! {

#[derive(Debug, Clone, Copy, PartialEq, Eq, Structural)]
pub struct OptimizerConfig {
    pub max_iters: u32,
    /// The rounds stop once no node moves or turns by as much as this.
    pub eps_xy: Single,
    pub eps_yaw: Single,
    /// Damping added to the diagonal each round.
    pub lambda: Single,
}

pub const DEFAULT_MAX_ITERS: u32 = 50;

pub const DEFAULT_EPS_BITS: u32 = 0x38D1_B717;

pub const DEFAULT_LAMBDA_BITS: u32 = 0x3586_37BD;

impl Default for OptimizerConfig {
    /// Fifty rounds, down to a tenth of a millimetre and of a milliradian.
    fn default() -> (cfg: Self)
        ensures
            cfg.max_iters == DEFAULT_MAX_ITERS,
            cfg.eps_xy.bits == DEFAULT_EPS_BITS,
            cfg.eps_yaw.bits == DEFAULT_EPS_BITS,
            cfg.lambda.bits == DEFAULT_LAMBDA_BITS,
    {
        OptimizerConfig {
            max_iters: DEFAULT_MAX_ITERS,
            eps_xy: Single { bits: DEFAULT_EPS_BITS },
            eps_yaw: Single { bits: DEFAULT_EPS_BITS },
            lambda: Single { bits: DEFAULT_LAMBDA_BITS },
        }
    }
}

#[derive(Debug, Clone, Copy, PartialEq, Eq, Structural)]
pub struct OptimizeResult {
    pub iterations: u32,
    pub converged: bool,
    /// Sum of squared edge residuals at the final iterate.
    pub final_cost: Double,
}

/// Where a solved increment puts a node, how far that is, and by how much it turns.
#[derive(Debug, Clone, Copy, PartialEq, Eq, Structural)]
pub struct Placement {
    pub pose: Pose2,
    pub dxy: Single,
    pub dyaw: Single,
}

pub open spec fn zero() -> Single {
    Single { bits: 0 }
}

/// The largest of the numbers of the nodes that may move, and zero at least.
pub open spec fn largest(nodes: Seq<PoseNode>, measure: spec_fn(int) -> Single) -> Single
    decreases nodes.len(),
{
    if nodes.len() == 0 {
        zero()
    } else {
        let rest = largest(nodes.drop_last(), measure);
        let x = measure(nodes.len() - 1);
        if !nodes.last().fixed && rest.below(x) {
            x
        } else {
            rest
        }
    }
}

/// The farthest that any node moves.
pub open spec fn farthest(nodes: Seq<PoseNode>, placed: Seq<Placement>) -> Single {
    largest(nodes, |i: int| placed[i].dxy)
}

/// The most that any node turns.
pub open spec fn widest(nodes: Seq<PoseNode>, placed: Seq<Placement>) -> Single {
    largest(nodes, |i: int| placed[i].dyaw.without_sign())
}

/// The nodes after an increment: the fixed ones stay.
pub open spec fn moved(nodes: Seq<PoseNode>, placed: Seq<Placement>) -> Seq<PoseNode> {
    Seq::new(
        nodes.len(),
        |i: int|
            if nodes[i].fixed {
                nodes[i]
            } else {
                PoseNode { pose: placed[i].pose, ..nodes[i] }
            },
    )
}

/// Whether an increment is small enough to stop at.
pub open spec fn settled(
    cfg: OptimizerConfig,
    nodes: Seq<PoseNode>,
    placed: Seq<Placement>,
) -> bool {
    farthest(nodes, placed).below(cfg.eps_xy) && widest(nodes, placed).below(cfg.eps_yaw)
}

/// The rounds of one optimisation.
#[derive(Debug, Clone, Copy, PartialEq, Eq, Structural)]
pub struct Rounds {
    /// What there is to report so far. Its cost is the one that the last round
    /// linearised at, which a step away from there leaves behind: [`conclude`] puts the
    /// cost of the final iterate in its place.
    pub result: OptimizeResult,
    /// Whether no round is left to run.
    pub done: bool,
}

/// How an optimisation starts: with nothing to move or nothing to satisfy it has
/// converged already.
pub open spec fn started(cfg: OptimizerConfig, nodes: int, edges: int) -> Rounds {
    let idle = nodes == 0 || edges == 0;
    Rounds {
        result: OptimizeResult {
            iterations: 0,
            converged: idle,
            final_cost: Double { bits: 0 },
        },
        done: idle || cfg.max_iters == 0,
    }
}

/// The rounds after one more, which linearised at this cost. It found no increment,
/// or one.
pub open spec fn after_round(
    rounds: Rounds,
    cfg: OptimizerConfig,
    nodes: Seq<PoseNode>,
    cost: Double,
    placed: Option<Seq<Placement>>,
) -> Rounds {
    let iterations = (rounds.result.iterations + 1) as u32;
    let converged = match placed {
        Some(p) => settled(cfg, nodes, p),
        None => false,
    };
    Rounds {
        result: OptimizeResult { iterations, converged, final_cost: cost },
        done: placed is None || converged || iterations >= cfg.max_iters,
    }
}

/// Starts the rounds for a graph.
pub fn begin(graph: &PoseGraph, cfg: &OptimizerConfig) -> (rounds: Rounds)
    ensures
        rounds == started(
            *cfg,
            graph.all_nodes().len() as int,
            graph.all_edges().len() as int,
        ),
{
    let idle = graph.nodes().len() == 0 || graph.edges().len() == 0;
    Rounds {
        result: OptimizeResult {
            iterations: 0,
            converged: idle,
            final_cost: Double { bits: 0 },
        },
        done: idle || cfg.max_iters == 0,
    }
}

/// Ends one round: applies the increment that was solved for, if the system had a
/// solution, to the nodes that are not fixed.
pub fn optimize(
    rounds: Rounds,
    graph: &mut PoseGraph,
    cfg: &OptimizerConfig,
    cost: Double,
    placed: Option<&[Placement]>,
) -> (next: Rounds)
    requires
        rounds.result.iterations < cfg.max_iters,
        placed matches Some(p) ==> p@.len() == old(graph).all_nodes().len(),
    ensures
        next == after_round(
            rounds,
            *cfg,
            old(graph).all_nodes(),
            cost,
            match placed {
                Some(p) => Some(p@),
                None => None,
            },
        ),
        final(graph).all_edges() == old(graph).all_edges(),
        final(graph).all_nodes() == match placed {
            Some(p) => moved(old(graph).all_nodes(), p@),
            None => old(graph).all_nodes(),
        },
{
    let iterations: u32 = rounds.result.iterations + 1;
    let p = match placed {
        Some(p) => p,
        None => {
            return Rounds {
                result: OptimizeResult { iterations, converged: false, final_cost: cost },
                done: true,
            };
        },
    };
    let ghost before = graph.all_nodes();
    let ghost far = |i: int| p@[i].dxy;
    let ghost wide = |i: int| p@[i].dyaw.without_sign();
    let mut max_dxy: Single = Single { bits: 0 };
    let mut max_dyaw: Single = Single { bits: 0 };
    let mut i: usize = 0;
    while i < p.len()
        invariant
            i <= p@.len(),
            p@.len() == before.len(),
            far == (|i: int| p@[i].dxy),
            wide == (|i: int| p@[i].dyaw.without_sign()),
            max_dxy == largest(before.take(i as int), far),
            max_dyaw == largest(before.take(i as int), wide),
            graph.all_edges() == old(graph).all_edges(),
            graph.all_nodes() =~= moved(before, p@).take(i as int) + before.skip(i as int),
        decreases p.len() - i,
    {
        let node = graph.nodes()[i];
        assert(node == before[i as int]);
        assert(before.take(i + 1).drop_last() =~= before.take(i as int));
        if !node.fixed {
            let to = p[i];
            graph.set_pose(i, to.pose);
            if max_dxy.lt(to.dxy) {
                max_dxy = to.dxy;
            }
            let turn = to.dyaw.abs();
            if max_dyaw.lt(turn) {
                max_dyaw = turn;
            }
        }
        i += 1;
    }
    assert(before.take(i as int) =~= before);
    assert(graph.all_nodes() =~= moved(before, p@));
    let converged = max_dxy.lt(cfg.eps_xy) && max_dyaw.lt(cfg.eps_yaw);
    Rounds {
        result: OptimizeResult { iterations, converged, final_cost: cost },
        done: converged || iterations >= cfg.max_iters,
    }
}

/// Ends the optimisation: what it reports, `cost_at_end` being the sum of squared edge
/// residuals at the poses that it leaves behind.
pub fn conclude(rounds: Rounds, cost_at_end: Double) -> (result: OptimizeResult)
    ensures
        result == (OptimizeResult { final_cost: cost_at_end, ..rounds.result }),
        result.iterations == rounds.result.iterations,
        result.converged == rounds.result.converged,
        result.final_cost == cost_at_end,
{
    OptimizeResult {
        iterations: rounds.result.iterations,
        converged: rounds.result.converged,
        final_cost: cost_at_end,
    }
}

/// Which of the system's rows and columns are pinned, three to a node: those of
/// fixed nodes.
pub fn pinned_rows(graph: &PoseGraph) -> (pinned: Vec<bool>)
    requires
        3 * graph.all_nodes().len() <= usize::MAX,
    ensures
        pinned@.len() == 3 * graph.all_nodes().len(),
        forall|r: int|
            0 <= r < pinned@.len() ==> #[trigger] pinned@[r] == graph.all_nodes()[r / 3].fixed,
{
    let nodes = graph.nodes();
    let mut pinned: Vec<bool> = Vec::new();
    let mut i: usize = 0;
    while i < nodes.len()
        invariant
            i <= nodes@.len(),
            nodes@ == graph.all_nodes(),
            pinned@.len() == 3 * i,
            forall|r: int|
                0 <= r < pinned@.len() ==> #[trigger] pinned@[r] == graph.all_nodes()[r / 3].fixed,
        decreases nodes.len() - i,
    {
        let fixed = nodes[i].fixed;
        pinned.push(fixed);
        pinned.push(fixed);
        pinned.push(fixed);
        i += 1;
    }
    pinned
}

/// The bits of the smallest magnitude accepted as a pivot.
pub const PIVOT_FLOOR_BITS: u64 = 0x3D71_9799_812D_EA11;

/// The row, counted from the first of these, whose entry has the largest magnitude;
/// the first of equals.
pub open spec fn largest_row(column: Seq<Double>) -> int
    decreases column.len(),
{
    if column.len() <= 1 {
        0
    } else {
        let best = largest_row(column.drop_last());
        if column[best].without_sign().below(column.last().without_sign()) {
            column.len() - 1
        } else {
            best
        }
    }
}

/// The row to pivot on, given a column's entries from the diagonal down, or `None`
/// when the system is singular.
pub fn pivot(column: &[Double]) -> (row: Option<usize>)
    requires
        column@.len() > 0,
    ensures
        row is None <==> column@[largest_row(column@)].without_sign().below(
            Double { bits: PIVOT_FLOOR_BITS },
        ),
        row matches Some(r) ==> r == largest_row(column@),
{
    let mut best: usize = 0;
    let mut i: usize = 1;
    assert(column@.take(1).len() == 1);
    while i < column.len()
        invariant
            1 <= i <= column@.len(),
            best < i,
            best == largest_row(column@.take(i as int)),
        decreases column.len() - i,
    {
        assert(column@.take(i + 1).drop_last() =~= column@.take(i as int));
        if column[best].abs().lt(column[i].abs()) {
            best = i;
        }
        i += 1;
    }
    assert(column@.take(i as int) =~= column@);
    if column[best].abs().lt(Double { bits: PIVOT_FLOOR_BITS }) {
        None
    } else {
        Some(best)
    }
}

proof fn lemma_largest_row(column: Seq<Double>)
    requires
        column.len() > 0,
        forall|i: int| 0 <= i < column.len() ==> !(#[trigger] column[i]).nan(),
    ensures
        0 <= largest_row(column) < column.len(),
        forall|i: int|
            0 <= i < column.len() ==> (#[trigger] column[i]).without_sign().at_most(
                column[largest_row(column)].without_sign(),
            ),
    decreases column.len(),
{
    if column.len() > 1 {
        let short = column.drop_last();
        assert forall|i: int| 0 <= i < short.len() implies !(#[trigger] short[i]).nan() by {
            assert(short[i] == column[i]);
        }
        lemma_largest_row(short);
        assert forall|i: int| 0 <= i < column.len() implies (
        #[trigger] column[i]).without_sign().at_most(
            column[largest_row(column)].without_sign(),
        ) by {
            if i < short.len() {
                assert(short[i] == column[i]);
            }
        }
    }
}

/// No entry of a column outweighs the one pivoted on.
pub proof fn law_pivot_is_the_largest(column: Seq<Double>, i: int)
    requires
        0 <= i < column.len(),
        forall|k: int| 0 <= k < column.len() ==> !(#[trigger] column[k]).nan(),
    ensures
        column[i].without_sign().at_most(column[largest_row(column)].without_sign()),
{
    lemma_largest_row(column);
}

/// A fixed node stays where it is, whatever increment was solved for.
pub proof fn law_fixed_nodes_stay(nodes: Seq<PoseNode>, placed: Seq<Placement>, i: int)
    requires
        0 <= i < nodes.len(),
        nodes[i].fixed,
    ensures
        moved(nodes, placed).len() == nodes.len(),
        moved(nodes, placed)[i] == nodes[i],
{
}

/// The state of the rounds over some solved increments, one after the other, as long
/// as rounds are left.
pub open spec fn run(
    cfg: OptimizerConfig,
    nodes: Seq<PoseNode>,
    edges: int,
    solves: Seq<(Double, Option<Seq<Placement>>)>,
) -> (Rounds, Seq<PoseNode>)
    decreases solves.len(),
{
    if solves.len() == 0 {
        (started(cfg, nodes.len() as int, edges), nodes)
    } else {
        let (rounds, at) = run(cfg, nodes, edges, solves.drop_last());
        if rounds.done {
            (rounds, at)
        } else {
            let (cost, placed) = solves.last();
            (
                after_round(rounds, cfg, at, cost, placed),
                match placed {
                    Some(p) => moved(at, p),
                    None => at,
                },
            )
        }
    }
}

/// An optimisation takes at most the rounds allowed, leaves every fixed node where
/// it was, and is over once that many increments have been tried.
pub proof fn law_optimisation_is_bounded(
    cfg: OptimizerConfig,
    nodes: Seq<PoseNode>,
    edges: int,
    solves: Seq<(Double, Option<Seq<Placement>>)>,
)
    ensures
        ({
            let (rounds, at) = run(cfg, nodes, edges, solves);
            &&& rounds.result.iterations <= cfg.max_iters
            &&& !rounds.done ==> rounds.result.iterations == solves.len() && solves.len()
                < cfg.max_iters
            &&& solves.len() >= cfg.max_iters ==> rounds.done
            &&& at.len() == nodes.len()
            &&& forall|i: int| 0 <= i < nodes.len() && nodes[i].fixed ==> #[trigger] at[i] == nodes[i]
            &&& forall|i: int| 0 <= i < nodes.len() ==> (#[trigger] at[i]).fixed == nodes[i].fixed
        }),
    decreases solves.len(),
{
    if solves.len() > 0 {
        law_optimisation_is_bounded(cfg, nodes, edges, solves.drop_last());
    }
}

proof fn lemma_largest(nodes: Seq<PoseNode>, measure: spec_fn(int) -> Single)
    ensures
        zero().at_most(largest(nodes, measure)),
        forall|i: int|
            #![trigger nodes[i]]
            0 <= i < nodes.len() && !nodes[i].fixed ==> !largest(nodes, measure).below(measure(i)),
        largest(nodes, measure) == zero() || exists|i: int|
            #![trigger nodes[i]]
            0 <= i < nodes.len() && !nodes[i].fixed && largest(nodes, measure) == measure(i),
    decreases nodes.len(),
{
    if nodes.len() > 0 {
        let front = nodes.drop_last();
        lemma_largest(front, measure);
        let last = nodes.len() - 1;
        assert(nodes[last] == nodes.last());
        assert forall|i: int|
            #![trigger nodes[i]]
            0 <= i < nodes.len() && !nodes[i].fixed implies !largest(nodes, measure).below(
            measure(i),
        ) by {
            if i < last {
                assert(front[i] == nodes[i]);
            }
        }
        if largest(nodes, measure) != zero() && largest(nodes, measure) != measure(last) {
            let i = choose|i: int|
                #![trigger front[i]]
                0 <= i < front.len() && !front[i].fixed && largest(front, measure) == measure(i);
            assert(front[i] == nodes[i]);
        } else if largest(nodes, measure) != zero() && (nodes[last].fixed || !largest(
            front,
            measure,
        ).below(measure(last))) {
            let i = choose|i: int|
                #![trigger front[i]]
                0 <= i < front.len() && !front[i].fixed && largest(front, measure) == measure(i);
            assert(front[i] == nodes[i]);
        }
    }
}

/// An increment is small enough to stop at exactly if no node that may move moves or turns
/// by as much as the limits; fixed nodes have no say.
pub proof fn law_settled_means_no_node_moves_much(
    cfg: OptimizerConfig,
    nodes: Seq<PoseNode>,
    placed: Seq<Placement>,
)
    requires
        zero().below(cfg.eps_xy),
        zero().below(cfg.eps_yaw),
        placed.len() == nodes.len(),
        forall|i: int|
            #![trigger placed[i]]
            0 <= i < placed.len() ==> !placed[i].dxy.nan() && !placed[i].dyaw.nan(),
    ensures
        settled(cfg, nodes, placed) <==> forall|i: int|
            #![trigger nodes[i]]
            0 <= i < nodes.len() && !nodes[i].fixed ==> placed[i].dxy.below(cfg.eps_xy)
                && placed[i].dyaw.without_sign().below(cfg.eps_yaw),
{
    let far = |i: int| placed[i].dxy;
    let wide = |i: int| placed[i].dyaw.without_sign();
    lemma_largest(nodes, far);
    lemma_largest(nodes, wide);
    if settled(cfg, nodes, placed) {
        assert forall|i: int|
            #![trigger nodes[i]]
            0 <= i < nodes.len() && !nodes[i].fixed implies placed[i].dxy.below(cfg.eps_xy)
            && placed[i].dyaw.without_sign().below(cfg.eps_yaw) by {
            assert(!placed[i].dxy.nan() && !placed[i].dyaw.nan());
            assert(!largest(nodes, far).below(far(i)));
            assert(!largest(nodes, wide).below(wide(i)));
        }
    }
    if forall|i: int|
        #![trigger nodes[i]]
        0 <= i < nodes.len() && !nodes[i].fixed ==> placed[i].dxy.below(cfg.eps_xy)
            && placed[i].dyaw.without_sign().below(cfg.eps_yaw) {
        if largest(nodes, far) != zero() {
            let i = choose|i: int|
                #![trigger nodes[i]]
                0 <= i < nodes.len() && !nodes[i].fixed && largest(nodes, far) == far(i);
            assert(placed[i].dxy.below(cfg.eps_xy));
        }
        if largest(nodes, wide) != zero() {
            let i = choose|i: int|
                #![trigger nodes[i]]
                0 <= i < nodes.len() && !nodes[i].fixed && largest(nodes, wide) == wide(i);
            assert(placed[i].dyaw.without_sign().below(cfg.eps_yaw));
        }
    }
}

/// A node that is not fixed goes where the increment puts it, and stays the same submap's.
pub proof fn law_free_nodes_are_placed(nodes: Seq<PoseNode>, placed: Seq<Placement>, i: int)
    requires
        0 <= i < nodes.len(),
        !nodes[i].fixed,
    ensures
        moved(nodes, placed)[i].pose == placed[i].pose,
        moved(nodes, placed)[i].submap_idx == nodes[i].submap_idx,
        !moved(nodes, placed)[i].fixed,
{
}

/// A round that finds no increment is the last and has not converged; one that finds one
/// has converged exactly if that is small enough, and is the last if it has converged or
/// no round is left. Each is counted, and reports the cost it was linearised at.
pub proof fn law_rounds_go_on_until_settled(
    rounds: Rounds,
    cfg: OptimizerConfig,
    nodes: Seq<PoseNode>,
    cost: Double,
    placed: Seq<Placement>,
)
    requires
        rounds.result.iterations < cfg.max_iters,
    ensures
        ({
            let none = after_round(rounds, cfg, nodes, cost, None);
            let some = after_round(rounds, cfg, nodes, cost, Some(placed));
            &&& none.done && !none.result.converged
            &&& none.result.iterations == rounds.result.iterations + 1
            &&& none.result.final_cost == cost
            &&& some.result.converged == settled(cfg, nodes, placed)
            &&& some.done == (settled(cfg, nodes, placed) || rounds.result.iterations + 1
                >= cfg.max_iters)
            &&& some.result.iterations == rounds.result.iterations + 1
            &&& some.result.final_cost == cost
        }),
{
}

/// An optimisation with nothing to move or nothing to satisfy has converged at no cost;
/// any other starts unconverged, and runs if any round is allowed.
pub proof fn law_nothing_to_do_is_converged(cfg: OptimizerConfig, nodes: int, edges: int)
    requires
        0 <= nodes,
        0 <= edges,
    ensures
        started(cfg, nodes, edges).result.converged <==> nodes == 0 || edges == 0,
        started(cfg, nodes, edges).result.iterations == 0,
        started(cfg, nodes, edges).result.final_cost.bits == 0,
        nodes > 0 && edges > 0 ==> (started(cfg, nodes, edges).done <==> cfg.max_iters == 0),
        nodes == 0 || edges == 0 ==> started(cfg, nodes, edges).done,
{
}

/// Of entries of the same magnitude the first is pivoted on: every earlier one is smaller.
pub proof fn law_pivot_is_the_first_of_equals(column: Seq<Double>, i: int)
    requires
        0 <= i < largest_row(column),
        forall|k: int| 0 <= k < column.len() ==> !(#[trigger] column[k]).nan(),
        column.len() > 0,
    ensures
        column[i].without_sign().below(column[largest_row(column)].without_sign()),
    decreases column.len(),
{
    lemma_largest_row(column);
    if column.len() > 1 {
        let short = column.drop_last();
        assert forall|k: int| 0 <= k < short.len() implies !(#[trigger] short[k]).nan() by {
            assert(short[k] == column[k]);
        }
        lemma_largest_row(short);
        assert(short[i] == column[i]);
        if largest_row(column) == largest_row(short) {
            law_pivot_is_the_first_of_equals(short, i);
        } else {
            assert(short[i].without_sign().at_most(short[largest_row(short)].without_sign()));
        }
    }
}

/// The entry to pivot on has the largest magnitude of its column, and of equals it is
/// the first; where even that is below the floor the system is taken for singular.
pub proof fn law_the_pivot_is_the_largest(column: Seq<Double>, k: int)
    requires
        0 <= k < column.len(),
        forall|i: int| 0 <= i < column.len() ==> !(#[trigger] column[i]).nan(),
    ensures
        0 <= largest_row(column) < column.len(),
        column[k].without_sign().at_most(column[largest_row(column)].without_sign()),
        k < largest_row(column) ==> column[k].without_sign().below(
            column[largest_row(column)].without_sign(),
        ),
        PIVOT_FLOOR_BITS == 0x3D71_9799_812D_EA11,
    decreases column.len(),
{
    if column.len() > 1 {
        let rest = column.drop_last();
        assert forall|i: int| 0 <= i < rest.len() implies !(#[trigger] rest[i]).nan() by {
            assert(rest[i] == column[i]);
        }
        let best = largest_row(rest);
        law_the_pivot_is_the_largest(rest, 0);
        assert(rest[best] == column[best]);
        if k < rest.len() {
            law_the_pivot_is_the_largest(rest, k);
            assert(rest[k] == column[k]);
        }
        assert(!column[column.len() - 1].nan());
        assert(!column[best].nan());
    } else {
        assert(!column[k].nan());
    }
}

/// Where nothing may move, nothing moves: the largest step over no free node is zero.
pub proof fn law_fixed_nodes_take_no_step(nodes: Seq<PoseNode>, measure: spec_fn(int) -> Single)
    requires
        forall|i: int| 0 <= i < nodes.len() ==> (#[trigger] nodes[i]).fixed,
    ensures
        largest(nodes, measure).bits == 0,
    decreases nodes.len(),
{
    if nodes.len() > 0 {
        let rest = nodes.drop_last();
        assert forall|i: int| 0 <= i < rest.len() implies (#[trigger] rest[i]).fixed by {
            assert(rest[i] == nodes[i]);
        }
        law_fixed_nodes_take_no_step(rest, measure);
        assert(nodes[nodes.len() - 1].fixed);
    }
}

} // verus!

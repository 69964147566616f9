//! The pose graph over submap anchors: a node per submap, and edges that hold a
//! measured relative pose and how far to trust it.

use vstd::prelude::*;
use crate::ieee::Single;
use crate::submap::Pose2;

verus! {

#[derive(Debug, Clone, Copy)]
pub struct PoseNode {
    pub pose: Pose2,
    /// The submap this node stands for, by position.
    pub submap_idx: usize,
    /// Whether optimisation leaves the node where it is.
    pub fixed: bool,
}

#[derive(Debug, Clone, Copy)]
pub struct PoseEdge {
    pub from: usize,
    pub to: usize,
    /// The pose of `to` in the frame of `from`, as measured.
    pub measurement: Pose2,
    /// Information matrix; larger entries hold tighter.
    pub information: [[Single; 3]; 3],
}

pub struct PoseGraph {
    nodes: Vec<PoseNode>,
    edges: Vec<PoseEdge>,
}

/// A node at a pose, as it enters a graph that has `n` nodes: the first is fixed.
pub open spec fn entering(pose: Pose2, submap_idx: usize, n: int) -> PoseNode {
    PoseNode { pose, submap_idx, fixed: n == 0 }
}

/// The edge joins two of the nodes.
pub open spec fn joins(edge: PoseEdge, nodes: int) -> bool {
    edge.from < nodes && edge.to < nodes
}

impl PoseGraph {
    pub closed spec fn all_nodes(&self) -> Seq<PoseNode> {
        self.nodes@
    }

    pub closed spec fn all_edges(&self) -> Seq<PoseEdge> {
        self.edges@
    }

    /// Every edge joins two nodes of the graph.
    pub open spec fn connected(&self) -> bool {
        forall|k: int|
            0 <= k < self.all_edges().len() ==> joins(
                #[trigger] self.all_edges()[k],
                self.all_nodes().len() as int,
            )
    }

    pub fn new() -> (graph: Self)
        ensures
            graph.all_nodes() == Seq::<PoseNode>::empty(),
            graph.all_edges() == Seq::<PoseEdge>::empty(),
    {
        PoseGraph { nodes: Vec::new(), edges: Vec::new() }
    }

    /// A graph with these nodes and edges.
    pub fn from_parts(nodes: Vec<PoseNode>, edges: Vec<PoseEdge>) -> (graph: Self)
        ensures
            graph.all_nodes() == nodes@,
            graph.all_edges() == edges@,
    {
        PoseGraph { nodes, edges }
    }

    /// Adds a node at the given pose and tells its index. The first node of a graph
    /// is fixed, which anchors the graph in the world.
    pub fn add_node(&mut self, pose: Pose2, submap_idx: usize) -> (idx: usize)
        ensures
            idx == old(self).all_nodes().len(),
            final(self).all_nodes() == old(self).all_nodes().push(
                entering(pose, submap_idx, idx as int),
            ),
            final(self).all_edges() == old(self).all_edges(),
    {
        let idx: usize = self.nodes.len();
        self.nodes.push(PoseNode { pose, submap_idx, fixed: idx == 0 });
        idx
    }

    pub fn add_edge(&mut self, edge: PoseEdge)
        ensures
            final(self).all_edges() == old(self).all_edges().push(edge),
            final(self).all_nodes() == old(self).all_nodes(),
    {
        self.edges.push(edge);
    }

    pub fn nodes(&self) -> (nodes: &[PoseNode])
        ensures
            nodes@ == self.all_nodes(),
    {
        self.nodes.as_slice()
    }

    pub fn edges(&self) -> (edges: &[PoseEdge])
        ensures
            edges@ == self.all_edges(),
    {
        self.edges.as_slice()
    }

    /// Tells whether every edge joins two nodes of the graph.
    pub fn is_connected(&self) -> (r: bool)
        ensures
            r == self.connected(),
    {
        let n: usize = self.nodes.len();
        for k in 0..self.edges.len()
            invariant
                n == self.all_nodes().len(),
                forall|j: int|
                    0 <= j < k ==> joins(#[trigger] self.all_edges()[j], n as int),
        {
            assert(self.all_edges()[k as int] == self.edges@[k as int]);
            if self.edges[k].from >= n || self.edges[k].to >= n {
                assert(!joins(self.all_edges()[k as int], n as int));
                return false;
            }
        }
        true
    }

    pub fn nodes_mut(&mut self) -> (nodes: &mut [PoseNode])
        ensures
            nodes@ == old(self).all_nodes(),
            final(self).all_nodes() == final(nodes)@,
            final(self).all_edges() == old(self).all_edges(),
    {
        self.nodes.as_mut_slice()
    }

    pub fn edges_mut(&mut self) -> (edges: &mut [PoseEdge])
        ensures
            edges@ == old(self).all_edges(),
            final(self).all_edges() == final(edges)@,
            final(self).all_nodes() == old(self).all_nodes(),
    {
        self.edges.as_mut_slice()
    }

    /// Moves one node.
    pub(crate) fn set_pose(&mut self, idx: usize, pose: Pose2)
        requires
            idx < old(self).all_nodes().len(),
        ensures
            final(self).all_nodes() == old(self).all_nodes().update(
                idx as int,
                (PoseNode { pose, ..old(self).all_nodes()[idx as int] }),
            ),
            final(self).all_edges() == old(self).all_edges(),
    {
        self.nodes[idx].pose = pose;
    }

    /// Changes what one edge measured.
    pub(crate) fn set_measurement(&mut self, idx: usize, measurement: Pose2)
        requires
            idx < old(self).all_edges().len(),
        ensures
            final(self).all_edges() == old(self).all_edges().update(
                idx as int,
                (PoseEdge { measurement, ..old(self).all_edges()[idx as int] }),
            ),
            final(self).all_nodes() == old(self).all_nodes(),
    {
        self.edges[idx].measurement = measurement;
    }

    /// Fixes a node; an index past the end is ignored.
    pub fn fix_node(&mut self, idx: usize)
        ensures
            final(self).all_edges() == old(self).all_edges(),
            final(self).all_nodes() == if idx < old(self).all_nodes().len() {
                old(self).all_nodes().update(
                    idx as int,
                    (PoseNode { fixed: true, ..old(self).all_nodes()[idx as int] }),
                )
            } else {
                old(self).all_nodes()
            },
    {
        if idx < self.nodes.len() {
            self.nodes[idx].fixed = true;
        }
    }
}

/// The first node of a graph is fixed, and no later one is; each keeps the pose and the
/// submap it was added with.
pub proof fn law_only_the_first_node_is_fixed(pose: Pose2, submap_idx: usize, n: int)
    requires
        0 <= n,
    ensures
        entering(pose, submap_idx, n).fixed <==> n == 0,
        entering(pose, submap_idx, n).pose == pose,
        entering(pose, submap_idx, n).submap_idx == submap_idx,
{
}

/// In a connected graph both ends of every edge are nodes, and adding a node keeps it so.
pub proof fn law_edges_join_nodes(graph: PoseGraph, grown: PoseGraph, node: PoseNode, k: int)
    requires
        graph.connected(),
        0 <= k < graph.all_edges().len(),
        grown.all_edges() == graph.all_edges(),
        grown.all_nodes() == graph.all_nodes().push(node),
    ensures
        graph.all_edges()[k].from < graph.all_nodes().len(),
        graph.all_edges()[k].to < graph.all_nodes().len(),
        grown.connected(),
{
    assert(joins(graph.all_edges()[k], graph.all_nodes().len() as int));
    assert forall|j: int| 0 <= j < grown.all_edges().len() implies joins(
        #[trigger] grown.all_edges()[j],
        grown.all_nodes().len() as int,
    ) by {
        assert(joins(graph.all_edges()[j], graph.all_nodes().len() as int));
    }
}

/// An edge with an end that is no node keeps a graph from being connected.
pub proof fn law_a_loose_edge_is_found(graph: PoseGraph, k: int)
    requires
        0 <= k < graph.all_edges().len(),
        graph.all_edges()[k].from >= graph.all_nodes().len() || graph.all_edges()[k].to
            >= graph.all_nodes().len(),
    ensures
        !graph.connected(),
{
}

} // verus!

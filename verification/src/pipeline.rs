//! The assembled mapping pipeline: submaps, their pose graph, loop closures and the
//! tracked pose, one call per event.
//!
//! The tracked pose lives in the map's frame. Odometry only ever contributes the
//! change since its last reading; closures and relocalisations move the pose itself.

use vstd::prelude::*;
use crate::global_render::GlobalRenderConfig;
use crate::ieee::{Double, Single};
use crate::loop_closer::{LoopCloserConfig, LoopClosure};
use crate::optimizer::{self, moved, OptimizerConfig, Placement, Rounds};
use crate::pose_graph::{entering, joins, PoseEdge, PoseGraph, PoseNode};
use crate::submap::{Pose2, RawScan, Scan, Submap, MAX_RAW_SCANS};
use crate::submap_manager::{
    outcome_of, ticked, Progress, SubmapManager, SubmapManagerConfig, TickOutcome,
};

verus! {

#[derive(Debug, Clone, Copy, PartialEq, Eq, Structural)]
pub struct SlamConfig {
    pub submap: SubmapManagerConfig,
    pub loops: LoopCloserConfig,
    pub optimizer: OptimizerConfig,
    /// How far the odometry between two anchors is trusted.
    pub odom_sigma_xy: Single,
    pub odom_sigma_yaw: Single,
    pub render: GlobalRenderConfig,
}

/// Small submaps, of eight seconds or eighty centimetres: a submap that spans several
/// stops is not rigid. Witnesses may be twelve centimetres and five degrees apart.
pub open spec fn stock_config() -> SlamConfig {
    SlamConfig {
        submap: SubmapManagerConfig {
            max_age_s: Single { bits: 0x4100_0000 },
            max_travel_m: Single { bits: 0x3F4C_CCCD },
            min_travel_for_age_m: Single {
                bits: crate::submap_manager::DEFAULT_MIN_TRAVEL_FOR_AGE_BITS,
            },
        },
        loops: LoopCloserConfig {
            verify_max_spread_m: Single { bits: 0x3DF5_C28F },
            verify_max_spread_rad: Single { bits: 0x3DB8_51EC },
            ..crate::loop_closer::stock_config()
        },
        optimizer: OptimizerConfig {
            max_iters: optimizer::DEFAULT_MAX_ITERS,
            eps_xy: Single { bits: optimizer::DEFAULT_EPS_BITS },
            eps_yaw: Single { bits: optimizer::DEFAULT_EPS_BITS },
            lambda: Single { bits: optimizer::DEFAULT_LAMBDA_BITS },
        },
        odom_sigma_xy: Single { bits: 0x3DCC_CCCD },
        odom_sigma_yaw: Single { bits: 0x3D4C_CCCD },
        render: crate::global_render::stock_config(),
    }
}

impl Default for SlamConfig {
    fn default() -> (cfg: Self)
        ensures
            cfg == stock_config(),
    {
        let mut submap = SubmapManagerConfig::default();
        submap.max_age_s = Single { bits: 0x4100_0000 };
        submap.max_travel_m = Single { bits: 0x3F4C_CCCD };
        let mut loops = LoopCloserConfig::default();
        loops.verify_max_spread_m = Single { bits: 0x3DF5_C28F };
        loops.verify_max_spread_rad = Single { bits: 0x3DB8_51EC };
        SlamConfig {
            submap,
            loops,
            optimizer: OptimizerConfig::default(),
            odom_sigma_xy: Single { bits: 0x3DCC_CCCD },
            odom_sigma_yaw: Single { bits: 0x3D4C_CCCD },
            render: GlobalRenderConfig::default(),
        }
    }
}

/// A saved session.
pub struct SessionState<G> {
    pub frozen: Vec<Submap<G>>,
    pub current: Option<Submap<G>>,
    pub graph: PoseGraph,
    /// The node of each submap, by position.
    pub node_for_submap: Vec<usize>,
    pub tracked_pose: Pose2,
}

pub struct Slam<G> {
    cfg: SlamConfig,
    mgr: SubmapManager<G>,
    graph: PoseGraph,
    node_for_submap: Vec<usize>,
    n_loops: usize,
    tracked_pose: Pose2,
    last_odom: Option<Pose2>,
    edge_into_current: Option<usize>,
    dirty: bool,
}

/// How many loops a restored session counts: the edges beyond one for each frozen
/// submap after the first.
pub open spec fn restored_loops(edges: int, frozen: int) -> int {
    let chain = if frozen < 1 {
        0
    } else {
        frozen - 1
    };
    if edges < chain {
        0
    } else {
        edges - chain
    }
}

/// How far off a loop edge claims to be: no less than its match was.
pub fn loop_sigma(cfg: &SlamConfig, residual_m: Single) -> (sigma: Single)
    ensures
        sigma == cfg.loops.edge_sigma_xy.greater(residual_m),
{
    cfg.loops.edge_sigma_xy.max(residual_m)
}

/// What a tick did, whether a submap froze, and the frozen submap to look for loops
/// from, if there is one.
#[derive(Debug, Clone, Copy)]
pub struct Ticked {
    pub outcome: TickOutcome,
    pub froze: bool,
    pub search_from: Option<usize>,
}

/// The poses that link the tracked pose to the graph: as seen from the newest node,
/// for a submap that opens; and as seen from where the edge into the newest node
/// starts, for one that is anchored anew.
#[derive(Debug, Clone, Copy, PartialEq, Eq, Structural)]
pub struct Links {
    pub from_newest: Pose2,
    pub from_edge: Pose2,
}

impl<G> Slam<G> {
    pub closed spec fn settings(&self) -> SlamConfig {
        self.cfg
    }

    pub closed spec fn submaps(&self) -> SubmapManager<G> {
        self.mgr
    }

    pub closed spec fn poses(&self) -> PoseGraph {
        self.graph
    }

    /// The node of each submap, by position.
    pub closed spec fn nodes_of(&self) -> Seq<usize> {
        self.node_for_submap@
    }

    pub closed spec fn loops(&self) -> int {
        self.n_loops as int
    }

    pub closed spec fn pose(&self) -> Pose2 {
        self.tracked_pose
    }

    /// The odometry's last reading, if it still counts.
    pub closed spec fn odometry(&self) -> Option<Pose2> {
        self.last_odom
    }

    /// The edge into the newest node, while it may still change.
    pub closed spec fn live_edge(&self) -> Option<usize> {
        self.edge_into_current
    }

    /// Whether a render would show something new.
    pub closed spec fn changed(&self) -> bool {
        self.dirty
    }

    /// Every submap has a node of the graph, and every edge joins nodes of the graph.
    pub open spec fn sound(&self) -> bool {
        &&& self.poses().connected()
        &&& self.nodes_of().len() == self.submaps().maps().len()
        &&& forall|i: int|
            0 <= i < self.nodes_of().len() ==> (#[trigger] self.nodes_of()[i])
                < self.poses().all_nodes().len()
        &&& self.live_edge() matches Some(e) ==> {
            &&& e < self.poses().all_edges().len()
            &&& self.nodes_of().len() > 0
            &&& self.poses().all_edges()[e as int].from != self.nodes_of().last()
        }
    }

    /// No two submaps have the same node.
    pub open spec fn own_nodes(&self) -> bool {
        forall|i: int, j: int|
            0 <= i < j < self.nodes_of().len() ==> (#[trigger] self.nodes_of()[i]) != (
            #[trigger] self.nodes_of()[j])
    }

    /// Graph and map tell the same story: each node is where its submap is anchored.
    pub open spec fn in_step(&self) -> bool {
        forall|i: int|
            0 <= i < self.nodes_of().len() ==> self.poses().all_nodes()[(
            #[trigger] self.nodes_of()[i]) as int].pose == self.submaps().maps()[i].anchor_pose
    }

    /// Each submap's node is joined by an edge to that of the one before it.
    pub open spec fn chained(&self) -> bool {
        forall|i: int|
            0 < i < self.nodes_of().len() ==> joined(
                self.poses().all_edges(),
                self.nodes_of()[i - 1],
                #[trigger] self.nodes_of()[i],
            )
    }

    /// Everything but the graph, the submaps and their nodes is as it was.
    pub open spec fn same_rest(&self, other: &Slam<G>) -> bool {
        &&& self.settings() == other.settings()
        &&& self.pose() == other.pose()
        &&& self.odometry() == other.odometry()
    }

    pub fn new(cfg: SlamConfig) -> (slam: Self)
        ensures
            slam.settings() == cfg,
            slam.submaps().settings() == cfg.submap,
            slam.submaps().maps().len() == 0,
            slam.submaps().active() is None,
            slam.poses().all_nodes().len() == 0,
            slam.poses().all_edges().len() == 0,
            slam.nodes_of().len() == 0,
            slam.loops() == 0,
            slam.pose() == Pose2::origin(),
            slam.odometry() is None,
            slam.live_edge() is None,
            !slam.changed(),
            slam.sound(),
            slam.own_nodes(),
            slam.in_step(),
            slam.chained(),
    {
        Slam {
            cfg,
            mgr: SubmapManager::new(cfg.submap),
            graph: PoseGraph::new(),
            node_for_submap: Vec::new(),
            n_loops: 0,
            tracked_pose: Pose2::zero(),
            last_odom: None,
            edge_into_current: None,
            dirty: false,
        }
    }

    /// Resumes a saved session. The tracked pose is where the robot was when it saved.
    pub fn from_session(cfg: SlamConfig, s: SessionState<G>) -> (slam: Self)
        ensures
            slam.settings() == cfg,
            slam.submaps().settings() == cfg.submap,
            slam.submaps().closed_maps() == s.frozen@,
            slam.submaps().active() == s.current,
            slam.submaps().clock() is None,
            slam.poses() == s.graph,
            slam.nodes_of() == s.node_for_submap@,
            slam.loops() == restored_loops(
                s.graph.all_edges().len() as int,
                s.frozen@.len() as int,
            ),
            slam.pose() == s.tracked_pose,
            slam.odometry() is None,
            slam.live_edge() is None,
            slam.changed(),
    {
        let edges: usize = s.graph.edges().len();
        let frozen: usize = s.frozen.len();
        let chain: usize = if frozen < 1 {
            0
        } else {
            frozen - 1
        };
        let n_loops: usize = if edges < chain {
            0
        } else {
            edges - chain
        };
        Slam {
            cfg,
            mgr: SubmapManager::from_parts(cfg.submap, s.frozen, s.current),
            graph: s.graph,
            node_for_submap: s.node_for_submap,
            n_loops,
            tracked_pose: s.tracked_pose,
            last_odom: None,
            edge_into_current: None,
            dirty: true,
        }
    }

    pub fn tracked_pose(&self) -> (p: Pose2)
        ensures
            p == self.pose(),
    {
        self.tracked_pose
    }

    /// Overwrites the tracked pose. The odometry's last reading no longer counts: it
    /// belongs to another frame now.
    pub fn set_tracked(&mut self, pose: Pose2)
        ensures
            final(self).pose() == pose,
            final(self).odometry() is None,
            final(self).settings() == old(self).settings(),
            final(self).submaps() == old(self).submaps(),
            final(self).poses() == old(self).poses(),
            final(self).nodes_of() == old(self).nodes_of(),
            final(self).loops() == old(self).loops(),
            final(self).live_edge() == old(self).live_edge(),
            final(self).changed() == old(self).changed(),
    {
        self.tracked_pose = pose;
        self.last_odom = None;
    }

    /// Tells whether the graph, the submaps and their nodes fit together: a saved
    /// session is only as good as what it was read from.
    pub fn is_sound(&self) -> (r: bool)
        ensures
            r == self.sound(),
    {
        let n: usize = self.node_for_submap.len();
        let nodes: usize = self.graph.nodes().len();
        let frozen: usize = self.mgr.n_frozen();
        let open: usize = if self.mgr.current().is_some() {
            1
        } else {
            0
        };
        if !self.graph.is_connected() || n < frozen || n - frozen != open {
            return false;
        }
        for i in 0..n
            invariant
                n == self.nodes_of().len(),
                nodes == self.poses().all_nodes().len(),
                forall|k: int| 0 <= k < i ==> (#[trigger] self.nodes_of()[k]) < nodes,
        {
            let node: usize = self.node_for_submap[i];
            assert(node == self.nodes_of()[i as int]);
            if node >= nodes {
                return false;
            }
        }
        match self.edge_into_current {
            Some(e) => e < self.graph.edges().len() && n > 0 && self.graph.edges()[e].from
                != self.node_for_submap[n - 1],
            None => true,
        }
    }

    pub fn n_submaps(&self) -> (n: usize)
        requires
            self.submaps().closed_maps().len() < usize::MAX,
        ensures
            n == self.submaps().maps().len(),
    {
        self.mgr.n_total()
    }

    pub fn n_loops(&self) -> (n: usize)
        ensures
            n == self.loops(),
    {
        self.n_loops
    }

    /// The anchor of a submap, frozen ones first.
    pub fn anchor(&self, idx: usize) -> (p: Option<Pose2>)
        ensures
            p == if idx < self.submaps().maps().len() {
                Some(self.submaps().maps()[idx as int].anchor_pose)
            } else {
                None
            },
    {
        if idx < self.mgr.n_frozen() {
            Some(self.mgr.frozen()[idx].anchor_pose())
        } else if idx == self.mgr.n_frozen() {
            match self.mgr.current() {
                Some(map) => Some(map.anchor_pose()),
                None => None,
            }
        } else {
            None
        }
    }

    /// The odometry's last reading, for the caller to tell the change since.
    pub fn last_odom(&self) -> (p: Option<Pose2>)
        ensures
            p == self.odometry(),
    {
        self.last_odom
    }

    /// Takes in an odometry reading. `moved` is the tracked pose with the change since
    /// the last reading composed onto it; the first reading only sets the mark.
    pub fn observe_odom(&mut self, odom: Pose2, moved: Pose2)
        ensures
            final(self).pose() == if old(self).odometry() is Some {
                moved
            } else {
                old(self).pose()
            },
            final(self).odometry() == Some(odom),
            final(self).settings() == old(self).settings(),
            final(self).submaps() == old(self).submaps(),
            final(self).poses() == old(self).poses(),
            final(self).nodes_of() == old(self).nodes_of(),
            final(self).loops() == old(self).loops(),
            final(self).live_edge() == old(self).live_edge(),
            final(self).changed() == old(self).changed(),
    {
        if self.last_odom.is_some() {
            self.tracked_pose = moved;
        }
        self.last_odom = Some(odom);
    }

    /// The submaps, for the caller to tell how far along the active one is.
    pub fn manager(&self) -> (mgr: &SubmapManager<G>)
        ensures
            *mgr == self.submaps(),
    {
        &self.mgr
    }

    pub fn graph(&self) -> (graph: &PoseGraph)
        ensures
            *graph == self.poses(),
    {
        &self.graph
    }

    pub fn node_for_submap(&self) -> (nodes: &[usize])
        ensures
            nodes@ == self.nodes_of(),
    {
        self.node_for_submap.as_slice()
    }

    /// The pose of the newest node, to link a submap that opens to.
    pub fn newest(&self) -> (p: Option<Pose2>)
        requires
            self.sound(),
        ensures
            p == if self.nodes_of().len() > 0 {
                Some(self.poses().all_nodes()[self.nodes_of().last() as int].pose)
            } else {
                None
            },
    {
        let n: usize = self.node_for_submap.len();
        if n > 0 {
            let node: usize = self.node_for_submap[n - 1];
            assert(node == self.nodes_of()[n - 1]);
            Some(self.graph.nodes()[node].pose)
        } else {
            None
        }
    }

    /// The pose that the edge into the newest node starts at, to link a submap that is
    /// anchored anew to.
    pub fn edge_start(&self) -> (p: Option<Pose2>)
        requires
            self.sound(),
        ensures
            p == match self.live_edge() {
                Some(e) => Some(
                    self.poses().all_nodes()[self.poses().all_edges()[e as int].from as int].pose,
                ),
                None => None,
            },
    {
        match self.edge_into_current {
            Some(e) => {
                assert(joins(
                    self.graph.all_edges()[e as int],
                    self.graph.all_nodes().len() as int,
                ));
                let from: usize = self.graph.edges()[e].from;
                Some(self.graph.nodes()[from].pose)
            },
            None => None,
        }
    }

    /// One tick: the submaps age, and the graph follows. When a submap froze and there
    /// is another to compare it with, `search_from` says which one to look for loops
    /// from; [`Self::close_loops`] takes in what is found.
    ///
    /// A new submap's node is joined to its predecessor at once: a node that nothing
    /// joins is invisible to the optimiser, and the tracked pose rides on the newest.
    pub fn tick(
        &mut self,
        now_s: Single,
        progress: Progress,
        links: Links,
        information: [[Single; 3]; 3],
        fresh: G,
    ) -> (t: Ticked)
        requires
            old(self).sound(),
            old(self).submaps().closed_maps().len() + 1 < usize::MAX,
        ensures
            t.outcome == outcome_of(
                old(self).submaps().settings(),
                old(self).submaps().active(),
                progress,
            ),
            ticked(
                old(self).submaps(),
                final(self).submaps(),
                now_s,
                old(self).pose(),
                progress,
                fresh,
            ),
            final(self).same_rest(old(self)),
            final(self).loops() == old(self).loops(),
            final(self).changed() == (old(self).changed() || t.outcome is Opened),
            t.outcome is Idle ==> {
                &&& final(self).poses() == old(self).poses()
                &&& final(self).nodes_of() == old(self).nodes_of()
                &&& final(self).live_edge() == old(self).live_edge()
            },
            t.outcome is Reanchored ==> {
                &&& final(self).nodes_of() == old(self).nodes_of()
                &&& final(self).live_edge() == old(self).live_edge()
                &&& final(self).poses().all_nodes() == with_pose(
                    old(self).poses().all_nodes(),
                    old(self).nodes_of().last() as int,
                    old(self).pose(),
                )
                &&& final(self).poses().all_edges() == match old(self).live_edge() {
                    Some(e) => with_measurement(
                        old(self).poses().all_edges(),
                        e as int,
                        links.from_edge,
                    ),
                    None => old(self).poses().all_edges(),
                }
            },
            t.outcome is Opened ==> {
                let n = old(self).poses().all_nodes().len();
                &&& final(self).poses().all_nodes() == old(self).poses().all_nodes().push(
                    entering(old(self).pose(), old(self).submaps().maps().len() as usize, n as int),
                )
                &&& final(self).nodes_of() == old(self).nodes_of().push(n as usize)
                &&& old(self).nodes_of().len() == 0 ==> {
                    &&& final(self).poses().all_edges() == old(self).poses().all_edges()
                    &&& final(self).live_edge() is None
                }
                &&& old(self).nodes_of().len() > 0 ==> {
                    &&& final(self).poses().all_edges() == old(self).poses().all_edges().push(
                        (PoseEdge {
                            from: old(self).nodes_of().last(),
                            to: n as usize,
                            measurement: links.from_newest,
                            information,
                        }),
                    )
                    &&& final(self).live_edge() == Some(
                        old(self).poses().all_edges().len() as usize,
                    )
                }
            },
            t.froze == (t.outcome is Opened && old(self).submaps().active() is Some),
            t.froze == (final(self).submaps().closed_maps().len() > old(
                self,
            ).submaps().closed_maps().len()),
            t.search_from == if t.froze && final(self).submaps().closed_maps().len() >= 2 {
                Some((final(self).submaps().closed_maps().len() - 1) as usize)
            } else {
                None
            },
            final(self).sound(),
            old(self).own_nodes() ==> final(self).own_nodes(),
            old(self).own_nodes() && old(self).in_step() ==> final(self).in_step(),
            old(self).chained() ==> final(self).chained(),
    {
        let prev_frozen: usize = self.mgr.n_frozen();
        let pose = self.tracked_pose;
        let ghost before = *self;
        let outcome = self.mgr.tick(now_s, pose, progress, fresh);
        match outcome {
            TickOutcome::Idle => {
                proof {
                    assert(self.submaps().maps() == before.submaps().maps());
                }
                return Ticked { outcome, froze: false, search_from: None };
            },
            TickOutcome::Reanchored => {
                self.follow_anchor(pose, links);
                proof {
                    lemma_reanchored(before, *self);
                }
                return Ticked { outcome, froze: false, search_from: None };
            },
            TickOutcome::Opened => {},
        }
        let idx: usize = self.mgr.n_total() - 1;
        self.grow(pose, idx, links, information);
        self.dirty = true;
        proof {
            assert(self.poses().all_nodes().drop_last() =~= before.poses().all_nodes());
            if before.nodes_of().len() > 0 {
                assert(self.poses().all_edges().drop_last() =~= before.poses().all_edges());
            }
            lemma_opened(before, *self);
        }
        let frozen: usize = self.mgr.n_frozen();
        let search_from: Option<usize> = if frozen > prev_frozen && frozen >= 2 {
            Some(frozen - 1)
        } else {
            None
        };
        Ticked { outcome, froze: frozen > prev_frozen, search_from }
    }

    /// Moves the newest node to where its submap is anchored now, and the edge into it.
    fn follow_anchor(&mut self, pose: Pose2, links: Links)
        requires
            old(self).nodes_of().len() > 0,
            old(self).nodes_of().last() < old(self).poses().all_nodes().len(),
            old(self).live_edge() matches Some(e) ==> e < old(self).poses().all_edges().len(),
        ensures
            final(self).cfg == old(self).cfg,
            final(self).mgr == old(self).mgr,
            final(self).node_for_submap == old(self).node_for_submap,
            final(self).n_loops == old(self).n_loops,
            final(self).tracked_pose == old(self).tracked_pose,
            final(self).last_odom == old(self).last_odom,
            final(self).edge_into_current == old(self).edge_into_current,
            final(self).dirty == old(self).dirty,
            final(self).poses().all_nodes() == with_pose(
                old(self).poses().all_nodes(),
                old(self).nodes_of().last() as int,
                pose,
            ),
            final(self).poses().all_edges() == match old(self).live_edge() {
                Some(e) => with_measurement(
                    old(self).poses().all_edges(),
                    e as int,
                    links.from_edge,
                ),
                None => old(self).poses().all_edges(),
            },
    {
        let node: usize = self.node_for_submap[self.node_for_submap.len() - 1];
        self.graph.set_pose(node, pose);
        match self.edge_into_current {
            Some(e) => self.graph.set_measurement(e, links.from_edge),
            None => {},
        }
    }

    /// Adds a node for the submap at position `idx`, and the edge into it.
    fn grow(&mut self, pose: Pose2, idx: usize, links: Links, information: [[Single; 3]; 3])
        ensures
            final(self).cfg == old(self).cfg,
            final(self).mgr == old(self).mgr,
            final(self).n_loops == old(self).n_loops,
            final(self).tracked_pose == old(self).tracked_pose,
            final(self).last_odom == old(self).last_odom,
            final(self).dirty == old(self).dirty,
            final(self).poses().all_nodes() == old(self).poses().all_nodes().push(
                entering(pose, idx, old(self).poses().all_nodes().len() as int),
            ),
            final(self).nodes_of() == old(self).nodes_of().push(
                old(self).poses().all_nodes().len() as usize,
            ),
            old(self).nodes_of().len() == 0 ==> {
                &&& final(self).poses().all_edges() == old(self).poses().all_edges()
                &&& final(self).live_edge() is None
            },
            old(self).nodes_of().len() > 0 ==> {
                &&& final(self).poses().all_edges() == old(self).poses().all_edges().push(
                    (PoseEdge {
                        from: old(self).nodes_of().last(),
                        to: old(self).poses().all_nodes().len() as usize,
                        measurement: links.from_newest,
                        information,
                    }),
                )
                &&& final(self).live_edge() == Some(
                    old(self).poses().all_edges().len() as usize,
                )
            },
            old(self).poses().all_nodes().len() <= usize::MAX,
            old(self).poses().all_edges().len() <= usize::MAX,
    {
        let at: usize = self.graph.edges().len();
        let node: usize = self.graph.add_node(pose, idx);
        self.edge_into_current = None;
        let n: usize = self.node_for_submap.len();
        if n > 0 {
            self.graph.add_edge(
                PoseEdge {
                    from: self.node_for_submap[n - 1],
                    to: node,
                    measurement: links.from_newest,
                    information,
                },
            );
            self.edge_into_current = Some(at);
        }
        self.node_for_submap.push(node);
    }

    /// Adds an edge for each loop found, with its information. When there was one the
    /// graph is to be optimised, and [`Self::reanchor`] to follow.
    pub fn close_loops(&mut self, loops: &[LoopClosure], information: &[[[Single; 3]; 3]])
        requires
            old(self).sound(),
            loops@.len() == information@.len(),
            old(self).loops() + loops@.len() <= usize::MAX,
            forall|k: int|
                0 <= k < loops@.len() ==> (#[trigger] loops@[k]).from_idx < old(
                    self,
                ).nodes_of().len() && loops@[k].to_idx < old(self).nodes_of().len(),
        ensures
            final(self).poses().all_edges() == old(self).poses().all_edges() + closing_edges(
                old(self).nodes_of(),
                loops@,
                information@,
            ),
            final(self).poses().all_nodes() == old(self).poses().all_nodes(),
            final(self).loops() == old(self).loops() + loops@.len(),
            final(self).submaps() == old(self).submaps(),
            final(self).nodes_of() == old(self).nodes_of(),
            final(self).live_edge() == old(self).live_edge(),
            final(self).changed() == old(self).changed(),
            final(self).same_rest(old(self)),
            final(self).sound(),
            old(self).in_step() ==> final(self).in_step(),
            old(self).chained() ==> final(self).chained(),
    {
        let ghost before = *self;
        let ghost wanted = closing_edges(before.nodes_of(), loops@, information@);
        let mut k: usize = 0;
        while k < loops.len()
            invariant
                k <= loops@.len(),
                loops@.len() == information@.len(),
                before.sound(),
                before.loops() + loops@.len() <= usize::MAX,
                forall|k: int|
                    0 <= k < loops@.len() ==> (#[trigger] loops@[k]).from_idx
                        < before.nodes_of().len() && loops@[k].to_idx < before.nodes_of().len(),
                wanted == closing_edges(before.nodes_of(), loops@, information@),
                self.cfg == before.cfg,
                self.mgr == before.mgr,
                self.node_for_submap == before.node_for_submap,
                self.tracked_pose == before.tracked_pose,
                self.last_odom == before.last_odom,
                self.edge_into_current == before.edge_into_current,
                self.dirty == before.dirty,
                self.n_loops == before.n_loops + k,
                self.graph.all_nodes() == before.graph.all_nodes(),
                self.graph.all_edges() =~= before.graph.all_edges() + wanted.take(k as int),
            decreases loops.len() - k,
        {
            let c = loops[k];
            assert(loops@[k as int].from_idx < before.nodes_of().len());
            let edge = PoseEdge {
                from: self.node_for_submap[c.from_idx],
                to: self.node_for_submap[c.to_idx],
                measurement: c.measurement,
                information: information[k],
            };
            assert(edge == wanted[k as int]);
            self.n_loops += 1;
            self.graph.add_edge(edge);
            k += 1;
        }
        assert(wanted.take(k as int) =~= wanted);
        proof {
            lemma_more_edges(before, *self, wanted);
        }
    }

    /// Ends one round of the optimiser on the graph.
    pub fn optimize_round(
        &mut self,
        rounds: Rounds,
        cost: Double,
        placed: Option<&[Placement]>,
    ) -> (next: Rounds)
        requires
            old(self).sound(),
            rounds.result.iterations < old(self).settings().optimizer.max_iters,
            placed matches Some(p) ==> p@.len() == old(self).poses().all_nodes().len(),
        ensures
            next == optimizer::after_round(
                rounds,
                old(self).settings().optimizer,
                old(self).poses().all_nodes(),
                cost,
                match placed {
                    Some(p) => Some(p@),
                    None => None,
                },
            ),
            final(self).poses().all_nodes() == match placed {
                Some(p) => moved(old(self).poses().all_nodes(), p@),
                None => old(self).poses().all_nodes(),
            },
            final(self).poses().all_edges() == old(self).poses().all_edges(),
            final(self).loops() == old(self).loops(),
            final(self).submaps() == old(self).submaps(),
            final(self).nodes_of() == old(self).nodes_of(),
            final(self).live_edge() == old(self).live_edge(),
            final(self).changed() == old(self).changed(),
            final(self).same_rest(old(self)),
            final(self).sound(),
            old(self).chained() ==> final(self).chained(),
    {
        let ghost before = *self;
        let cfg = self.cfg.optimizer;
        let next = optimizer::optimize(rounds, &mut self.graph, &cfg, cost, placed);
        proof {
            assert(self.poses().all_nodes().len() == before.poses().all_nodes().len());
            assert forall|k: int| 0 <= k < self.poses().all_edges().len() implies joins(
                #[trigger] self.poses().all_edges()[k],
                self.poses().all_nodes().len() as int,
            ) by {
                assert(joins(
                    before.poses().all_edges()[k],
                    before.poses().all_nodes().len() as int,
                ));
            }
            if before.chained() {
                assert forall|i: int| 0 < i < self.nodes_of().len() implies joined(
                    self.poses().all_edges(),
                    self.nodes_of()[i - 1],
                    #[trigger] self.nodes_of()[i],
                ) by {
                    assert(joined(
                        before.poses().all_edges(),
                        before.nodes_of()[i - 1],
                        before.nodes_of()[i],
                    ));
                }
            }
        }
        next
    }

    /// Follows an optimised graph: every submap goes where its node is, and the tracked
    /// pose with the newest one.
    pub fn reanchor(&mut self, pose: Pose2)
        requires
            old(self).sound(),
        ensures
            final(self).pose() == pose,
            final(self).in_step(),
            final(self).sound(),
            final(self).submaps().maps().len() == old(self).submaps().maps().len(),
            forall|i: int|
                0 <= i < old(self).submaps().maps().len() ==> (
                #[trigger] final(self).submaps().maps()[i]) == (Submap {
                    anchor_pose: old(self).poses().all_nodes()[old(
                        self,
                    ).nodes_of()[i] as int].pose,
                    ..old(self).submaps().maps()[i]
                }),
            final(self).submaps().closed_maps().len() == old(self).submaps().closed_maps().len(),
            final(self).submaps().settings() == old(self).submaps().settings(),
            final(self).submaps().clock() == old(self).submaps().clock(),
            final(self).poses() == old(self).poses(),
            final(self).nodes_of() == old(self).nodes_of(),
            final(self).loops() == old(self).loops(),
            final(self).live_edge() == old(self).live_edge(),
            final(self).changed() == old(self).changed(),
            final(self).settings() == old(self).settings(),
            final(self).odometry() == old(self).odometry(),
            old(self).chained() ==> final(self).chained(),
    {
        let ghost before = *self;
        let ghost maps = before.submaps().maps();
        let mut i: usize = 0;
        while i < self.node_for_submap.len()
            invariant
                i <= self.node_for_submap@.len(),
                before.sound(),
                maps == before.submaps().maps(),
                self.cfg == before.cfg,
                self.graph == before.graph,
                self.node_for_submap == before.node_for_submap,
                self.n_loops == before.n_loops,
                self.tracked_pose == before.tracked_pose,
                self.last_odom == before.last_odom,
                self.edge_into_current == before.edge_into_current,
                self.dirty == before.dirty,
                self.mgr.settings() == before.mgr.settings(),
                self.mgr.clock() == before.mgr.clock(),
                self.mgr.closed_maps().len() == before.mgr.closed_maps().len(),
                self.mgr.active() is Some <==> before.mgr.active() is Some,
                self.mgr.maps().len() == maps.len(),
                forall|k: int|
                    0 <= k < maps.len() ==> (#[trigger] self.mgr.maps()[k]) == if k < i {
                        (Submap {
                            anchor_pose: before.poses().all_nodes()[before.nodes_of()[k] as int].pose,
                            ..maps[k]
                        })
                    } else {
                        maps[k]
                    },
            decreases self.node_for_submap.len() - i,
        {
            let node: usize = self.node_for_submap[i];
            assert(node == before.nodes_of()[i as int]);
            let ghost was = self.mgr;
            let to = self.graph.nodes()[node].pose;
            self.mgr.move_anchor(i, to);
            assert(to == before.poses().all_nodes()[before.nodes_of()[i as int] as int].pose);
            assert forall|k: int| 0 <= k < maps.len() implies (#[trigger] self.mgr.maps()[k]) == if k
                < i + 1 {
                (Submap {
                    anchor_pose: before.poses().all_nodes()[before.nodes_of()[k] as int].pose,
                    ..maps[k]
                })
            } else {
                maps[k]
            } by {
                assert(was.maps()[k] == was.maps()[k]);
                let n = was.closed_maps().len();
                if i < n {
                    if k < n {
                        assert(self.mgr.maps()[k] == self.mgr.closed_maps()[k]);
                        assert(was.maps()[k] == was.closed_maps()[k]);
                        if k == i {
                            assert(self.mgr.closed_maps()[k] == (Submap {
                                anchor_pose: to,
                                ..was.closed_maps()[k]
                            }));
                        } else {
                            assert(self.mgr.closed_maps()[k] == was.closed_maps()[k]);
                        }
                    } else {
                        assert(self.mgr.maps()[k] == was.maps()[k]);
                    }
                } else {
                    assert(i == n);
                    assert(was.active() is Some);
                    if k < n {
                        assert(self.mgr.maps()[k] == self.mgr.closed_maps()[k]);
                        assert(was.maps()[k] == was.closed_maps()[k]);
                    } else {
                        assert(was.maps()[k] == was.active()->0);
                        assert(self.mgr.maps()[k] == self.mgr.active()->0);
                    }
                }
            }
            i += 1;
        }
        self.tracked_pose = pose;
        proof {
            assert forall|k: int| 0 <= k < self.nodes_of().len() implies self.poses().all_nodes()[(
            #[trigger] self.nodes_of()[k]) as int].pose == self.submaps().maps()[k].anchor_pose by {
                assert(self.mgr.maps()[k] == self.mgr.maps()[k]);
            }
        }
    }

    /// Takes in a scan whose rays have been cast into the active submap's grid: see
    /// [`Submap::integrate_scan_weighted`]. Without an active submap nothing happens.
    pub fn integrate_weighted(
        &mut self,
        body_pose_world: Pose2,
        pose_local: Pose2,
        scan: &Scan,
        hit: bool,
    )
        ensures
            final(self).submaps().closed_maps() == old(self).submaps().closed_maps(),
            final(self).submaps().settings() == old(self).submaps().settings(),
            final(self).submaps().clock() == old(self).submaps().clock(),
            old(self).submaps().active() is None ==> {
                &&& final(self).submaps().active() is None
                &&& final(self).changed() == old(self).changed()
            },
            old(self).submaps().active() matches Some(map) ==> {
                &&& final(self).changed()
                &&& final(self).submaps().active() matches Some(now)
                &&& now.grid == map.grid
                &&& now.anchor_pose == map.anchor_pose
                &&& remembers(
                    map.raw_scans@,
                    now.raw_scans@,
                    body_pose_world.finite() && hit,
                    pose_local,
                    scan,
                )
            },
            final(self).poses() == old(self).poses(),
            final(self).nodes_of() == old(self).nodes_of(),
            final(self).loops() == old(self).loops(),
            final(self).live_edge() == old(self).live_edge(),
            final(self).same_rest(old(self)),
            old(self).sound() ==> final(self).sound(),
            old(self).in_step() && old(self).sound() ==> final(self).in_step(),
            old(self).chained() ==> final(self).chained(),
    {
        let ghost before = *self;
        match self.mgr.current_mut() {
            Some(map) => {
                map.integrate_scan_weighted(body_pose_world, pose_local, scan, hit);
                self.dirty = true;
            },
            None => {},
        }
        proof {
            lemma_same_anchors(before, *self);
        }
    }

    /// The grid of the active submap, to cast rays into.
    pub fn current_grid(&mut self) -> (grid: Option<&mut G>)
        ensures
            grid is Some <==> old(self).submaps().active() is Some,
            grid matches Some(g) ==> {
                &&& *g == old(self).submaps().active()->0.grid
                &&& final(self).submaps().active() == Some(
                    (Submap { grid: *final(g), ..old(self).submaps().active()->0 }),
                )
            },
            grid is None ==> final(self).submaps().active() is None,
            final(self).submaps().closed_maps() == old(self).submaps().closed_maps(),
            final(self).submaps().settings() == old(self).submaps().settings(),
            final(self).submaps().clock() == old(self).submaps().clock(),
            final(self).changed() == old(self).changed(),
            final(self).poses() == old(self).poses(),
            final(self).nodes_of() == old(self).nodes_of(),
            final(self).loops() == old(self).loops(),
            final(self).live_edge() == old(self).live_edge(),
            final(self).same_rest(old(self)),
    {
        match self.mgr.current_mut() {
            Some(map) => Some(map.grid_mut()),
            None => None,
        }
    }

    /// Whether anything changed since this was last asked.
    pub fn take_dirty(&mut self) -> (r: bool)
        ensures
            r == old(self).changed(),
            !final(self).changed(),
            final(self).submaps() == old(self).submaps(),
            final(self).poses() == old(self).poses(),
            final(self).nodes_of() == old(self).nodes_of(),
            final(self).loops() == old(self).loops(),
            final(self).live_edge() == old(self).live_edge(),
            final(self).same_rest(old(self)),
    {
        let r = self.dirty;
        self.dirty = false;
        r
    }
}

/// The nodes with one of them moved.
pub open spec fn with_pose(nodes: Seq<PoseNode>, i: int, pose: Pose2) -> Seq<PoseNode> {
    nodes.update(i, (PoseNode { pose, ..nodes[i] }))
}

/// The edges with one of them measured anew.
pub open spec fn with_measurement(edges: Seq<PoseEdge>, i: int, measurement: Pose2) -> Seq<
    PoseEdge,
> {
    edges.update(i, (PoseEdge { measurement, ..edges[i] }))
}

/// The edges that loop closures add.
pub open spec fn closing_edges(
    nodes: Seq<usize>,
    loops: Seq<LoopClosure>,
    information: Seq<[[Single; 3]; 3]>,
) -> Seq<PoseEdge> {
    Seq::new(
        loops.len(),
        |k: int|
            PoseEdge {
                from: nodes[loops[k].from_idx as int],
                to: nodes[loops[k].to_idx as int],
                measurement: loops[k].measurement,
                information: information[k],
            },
    )
}

/// A scan that counts is remembered last, while there is room; otherwise nothing
/// changes.
pub open spec fn remembers(
    before: Seq<RawScan>,
    after: Seq<RawScan>,
    counts: bool,
    pose_local: Pose2,
    scan: &Scan,
) -> bool {
    if counts && before.len() < MAX_RAW_SCANS {
        &&& after.len() == before.len() + 1
        &&& after.drop_last() == before
        &&& after.last().pose_in_submap == pose_local
        &&& after.last().scan.beams@ == scan.beams@
    } else {
        after == before
    }
}

proof fn lemma_reanchored<G>(before: Slam<G>, after: Slam<G>)
    requires
        before.sound(),
        before.submaps().active() is Some,
        after.submaps().closed_maps() == before.submaps().closed_maps(),
        after.submaps().active() matches Some(map) && map.anchor_pose == before.pose(),
        after.nodes_of() == before.nodes_of(),
        after.live_edge() == before.live_edge(),
        after.poses().all_nodes() == with_pose(
            before.poses().all_nodes(),
            before.nodes_of().last() as int,
            before.pose(),
        ),
        after.poses().all_edges().len() == before.poses().all_edges().len(),
        forall|k: int|
            0 <= k < after.poses().all_edges().len() ==> {
                &&& (#[trigger] after.poses().all_edges()[k]).from
                    == before.poses().all_edges()[k].from
                &&& after.poses().all_edges()[k].to == before.poses().all_edges()[k].to
            },
    ensures
        after.sound(),
        before.own_nodes() && before.in_step() ==> after.in_step(),
        before.chained() ==> after.chained(),
{
    let n = before.nodes_of().len() as int;
    let last = before.nodes_of()[n - 1];
    assert(last == before.nodes_of().last());
    assert(after.poses().all_nodes().len() == before.poses().all_nodes().len());
    assert forall|k: int| 0 <= k < after.poses().all_edges().len() implies joins(
        #[trigger] after.poses().all_edges()[k],
        after.poses().all_nodes().len() as int,
    ) by {
        assert(joins(before.poses().all_edges()[k], before.poses().all_nodes().len() as int));
    }
    if before.own_nodes() && before.in_step() {
        assert forall|i: int| 0 <= i < after.nodes_of().len() implies after.poses().all_nodes()[(
        #[trigger] after.nodes_of()[i]) as int].pose == after.submaps().maps()[i].anchor_pose by {
            let at = before.nodes_of()[i];
            if i < n - 1 {
                assert(before.nodes_of()[i] != before.nodes_of()[n - 1]);
                assert(before.submaps().maps()[i] == before.submaps().closed_maps()[i]);
                assert(after.submaps().maps()[i] == after.submaps().closed_maps()[i]);
            }
        }
    }
    if before.chained() {
        assert forall|i: int| 0 < i < after.nodes_of().len() implies joined(
            after.poses().all_edges(),
            after.nodes_of()[i - 1],
            #[trigger] after.nodes_of()[i],
        ) by {
            assert(joined(
                before.poses().all_edges(),
                before.nodes_of()[i - 1],
                before.nodes_of()[i],
            ));
            let k = choose|k: int|
                0 <= k < before.poses().all_edges().len() && (
                #[trigger] before.poses().all_edges()[k]).from == before.nodes_of()[i - 1]
                    && before.poses().all_edges()[k].to == before.nodes_of()[i];
            assert(after.poses().all_edges()[k].from == before.poses().all_edges()[k].from);
        }
    }
}

proof fn lemma_opened<G>(before: Slam<G>, after: Slam<G>)
    requires
        before.sound(),
        before.poses().all_nodes().len() <= usize::MAX,
        after.submaps().closed_maps() == before.submaps().maps(),
        after.submaps().active() matches Some(map) && map.anchor_pose == before.pose(),
        after.poses().all_nodes().len() == before.poses().all_nodes().len() + 1,
        after.poses().all_nodes().drop_last() == before.poses().all_nodes(),
        after.poses().all_nodes().last().pose == before.pose(),
        after.nodes_of() == before.nodes_of().push(before.poses().all_nodes().len() as usize),
        before.nodes_of().len() == 0 ==> after.poses().all_edges() == before.poses().all_edges()
            && after.live_edge() is None,
        before.nodes_of().len() > 0 ==> {
            &&& after.poses().all_edges().len() == before.poses().all_edges().len() + 1
            &&& after.poses().all_edges().drop_last() == before.poses().all_edges()
            &&& after.poses().all_edges().last().from == before.nodes_of().last()
            &&& after.poses().all_edges().last().to == before.poses().all_nodes().len()
            &&& after.live_edge() == Some(before.poses().all_edges().len() as usize)
            &&& before.poses().all_edges().len() <= usize::MAX
        },
    ensures
        after.sound(),
        before.own_nodes() ==> after.own_nodes(),
        before.in_step() ==> after.in_step(),
        before.chained() ==> after.chained(),
{
    let n = before.nodes_of().len() as int;
    let e0 = before.poses().all_edges();
    let e1 = after.poses().all_edges();
    let n0 = before.poses().all_nodes();
    let n1 = after.poses().all_nodes();
    if n > 0 {
        assert(before.nodes_of()[n - 1] < n0.len());
        assert(before.nodes_of().last() == before.nodes_of()[n - 1]);
    }
    assert forall|k: int| 0 <= k < e1.len() implies joins(#[trigger] e1[k], n1.len() as int) by {
        if k < e0.len() {
            assert(e0[k] == e1[k]) by {
                if n > 0 {
                    assert(e1.drop_last()[k] == e1[k]);
                }
            }
            assert(joins(e0[k], n0.len() as int));
        }
    }
    assert forall|i: int| 0 <= i < after.nodes_of().len() implies (#[trigger] after.nodes_of()[i])
        < n1.len() by {
        if i < n {
            assert(before.nodes_of()[i] < n0.len());
        }
    }
    if before.own_nodes() {
        assert forall|i: int, j: int| 0 <= i < j < after.nodes_of().len() implies (
        #[trigger] after.nodes_of()[i]) != (#[trigger] after.nodes_of()[j]) by {
            assert(before.nodes_of()[i] < n0.len());
            if j < n {
                assert(before.nodes_of()[i] != before.nodes_of()[j]);
            }
        }
    }
    assert forall|i: int| 0 <= i < n0.len() implies #[trigger] n1[i] == n0[i] by {
        assert(n1.drop_last()[i] == n1[i]);
    }
    if before.in_step() {
        assert forall|i: int| 0 <= i < after.nodes_of().len() implies n1[(
        #[trigger] after.nodes_of()[i]) as int].pose == after.submaps().maps()[i].anchor_pose by {
            if i < n {
                let at = before.nodes_of()[i];
                assert(n1[at as int] == n0[at as int]);
                assert(after.submaps().maps()[i] == before.submaps().maps()[i]);
            }
        }
    }
    if before.chained() {
        assert forall|i: int| 0 < i < after.nodes_of().len() implies joined(
            e1,
            after.nodes_of()[i - 1],
            #[trigger] after.nodes_of()[i],
        ) by {
            if i < n {
                assert(joined(e0, before.nodes_of()[i - 1], before.nodes_of()[i]));
                let k = choose|k: int|
                    0 <= k < e0.len() && (#[trigger] e0[k]).from == before.nodes_of()[i - 1]
                        && e0[k].to == before.nodes_of()[i];
                assert(e1.drop_last()[k] == e1[k]);
                assert(e1[k].from == after.nodes_of()[i - 1]);
            } else {
                assert(e1[e1.len() - 1].from == after.nodes_of()[i - 1]);
            }
        }
    }
}

proof fn lemma_more_edges<G>(before: Slam<G>, after: Slam<G>, more: Seq<PoseEdge>)
    requires
        before.sound(),
        after.submaps() == before.submaps(),
        after.nodes_of() == before.nodes_of(),
        after.live_edge() == before.live_edge(),
        after.poses().all_nodes() == before.poses().all_nodes(),
        after.poses().all_edges() == before.poses().all_edges() + more,
        forall|k: int|
            0 <= k < more.len() ==> joins(
                #[trigger] more[k],
                before.poses().all_nodes().len() as int,
            ),
    ensures
        after.sound(),
        before.in_step() ==> after.in_step(),
        before.chained() ==> after.chained(),
{
    let e0 = before.poses().all_edges();
    let e1 = after.poses().all_edges();
    assert forall|k: int| 0 <= k < e1.len() implies joins(
        #[trigger] e1[k],
        after.poses().all_nodes().len() as int,
    ) by {
        if k < e0.len() {
            assert(e1[k] == e0[k]);
            assert(joins(e0[k], before.poses().all_nodes().len() as int));
        } else {
            assert(e1[k] == more[k - e0.len()]);
        }
    }
    if before.chained() {
        assert forall|i: int| 0 < i < after.nodes_of().len() implies joined(
            e1,
            after.nodes_of()[i - 1],
            #[trigger] after.nodes_of()[i],
        ) by {
            assert(joined(e0, before.nodes_of()[i - 1], before.nodes_of()[i]));
            let k = choose|k: int|
                0 <= k < e0.len() && (#[trigger] e0[k]).from == before.nodes_of()[i - 1]
                    && e0[k].to == before.nodes_of()[i];
            assert(e1[k] == e0[k]);
        }
    }
}

proof fn lemma_same_anchors<G>(before: Slam<G>, after: Slam<G>)
    requires
        after.submaps().closed_maps() == before.submaps().closed_maps(),
        after.submaps().active() is Some <==> before.submaps().active() is Some,
        before.submaps().active() matches Some(map) ==> after.submaps().active()->0.anchor_pose
            == map.anchor_pose,
        after.nodes_of() == before.nodes_of(),
        after.live_edge() == before.live_edge(),
        after.poses() == before.poses(),
    ensures
        before.sound() ==> after.sound(),
        before.in_step() && before.sound() ==> after.in_step(),
        before.chained() ==> after.chained(),
{
    assert(after.submaps().maps().len() == before.submaps().maps().len());
    if before.in_step() && before.sound() {
        assert forall|i: int| 0 <= i < after.nodes_of().len() implies after.poses().all_nodes()[(
        #[trigger] after.nodes_of()[i]) as int].pose == after.submaps().maps()[i].anchor_pose by {
            assert(before.nodes_of()[i] == after.nodes_of()[i]);
            assert(after.submaps().maps()[i].anchor_pose
                == before.submaps().maps()[i].anchor_pose);
        }
    }
}


/// Some edge joins the two nodes.
pub open spec fn joined(edges: Seq<PoseEdge>, a: usize, b: usize) -> bool {
    exists|k: int| 0 <= k < edges.len() && (#[trigger] edges[k]).from == a && edges[k].to == b
}

/// A restored session counts a loop for every edge beyond the chain, which has one edge
/// for each frozen submap after the first.
pub proof fn law_edges_beyond_the_chain_are_loops(edges: int, frozen: int)
    requires
        0 <= edges,
        0 <= frozen,
    ensures
        frozen == 0 ==> restored_loops(edges, frozen) == edges,
        frozen > 0 && edges >= frozen - 1 ==> restored_loops(edges, frozen) == edges - (frozen - 1),
        frozen > 0 && edges < frozen - 1 ==> restored_loops(edges, frozen) == 0,
{
}

/// A loop that closes joins the nodes of its two submaps by what it measured, and there is
/// one edge for each, in order.
pub proof fn law_a_closed_loop_joins_its_submaps(
    nodes: Seq<usize>,
    loops: Seq<LoopClosure>,
    information: Seq<[[Single; 3]; 3]>,
    k: int,
)
    requires
        0 <= k < loops.len(),
    ensures
        closing_edges(nodes, loops, information).len() == loops.len(),
        closing_edges(nodes, loops, information)[k].from == nodes[loops[k].from_idx as int],
        closing_edges(nodes, loops, information)[k].to == nodes[loops[k].to_idx as int],
        closing_edges(nodes, loops, information)[k].measurement == loops[k].measurement,
        closing_edges(nodes, loops, information)[k].information == information[k],
        joined(
            closing_edges(nodes, loops, information),
            nodes[loops[k].from_idx as int],
            nodes[loops[k].to_idx as int],
        ),
{
    assert(closing_edges(nodes, loops, information)[k].from == nodes[loops[k].from_idx as int]);
}

/// Moving a node, or measuring an edge anew, changes that pose and nothing else.
pub proof fn law_moving_one_leaves_the_others(
    nodes: Seq<PoseNode>,
    edges: Seq<PoseEdge>,
    i: int,
    j: int,
    pose: Pose2,
)
    requires
        0 <= i < nodes.len(),
        0 <= i < edges.len(),
        0 <= j < nodes.len(),
        0 <= j < edges.len(),
    ensures
        with_pose(nodes, i, pose).len() == nodes.len(),
        with_pose(nodes, i, pose)[i].pose == pose,
        with_pose(nodes, i, pose)[i].fixed == nodes[i].fixed,
        with_pose(nodes, i, pose)[i].submap_idx == nodes[i].submap_idx,
        j != i ==> with_pose(nodes, i, pose)[j] == nodes[j],
        with_measurement(edges, i, pose).len() == edges.len(),
        with_measurement(edges, i, pose)[i].measurement == pose,
        with_measurement(edges, i, pose)[i].from == edges[i].from,
        with_measurement(edges, i, pose)[i].to == edges[i].to,
        with_measurement(edges, i, pose)[i].information == edges[i].information,
        j != i ==> with_measurement(edges, i, pose)[j] == edges[j],
{
}

/// In a sound session every submap has a node of the graph, as many as there are submaps,
/// both ends of every edge are nodes, and the edge that may still change does not start at
/// the newest node.
pub proof fn law_a_sound_session_fits_together<G>(slam: Slam<G>, i: int, k: int)
    requires
        slam.sound(),
    ensures
        slam.nodes_of().len() == slam.submaps().closed_maps().len() + if slam.submaps().active() is Some {
            1int
        } else {
            0
        },
        0 <= i < slam.nodes_of().len() ==> slam.nodes_of()[i] < slam.poses().all_nodes().len(),
        0 <= k < slam.poses().all_edges().len() ==> slam.poses().all_edges()[k].from
            < slam.poses().all_nodes().len() && slam.poses().all_edges()[k].to
            < slam.poses().all_nodes().len(),
        slam.live_edge() matches Some(e) ==> e < slam.poses().all_edges().len()
            && slam.poses().all_edges()[e as int].from != slam.nodes_of().last(),
{
    if 0 <= i < slam.nodes_of().len() {
        assert(slam.nodes_of()[i] < slam.poses().all_nodes().len());
    }
    if 0 <= k < slam.poses().all_edges().len() {
        assert(joins(slam.poses().all_edges()[k], slam.poses().all_nodes().len() as int));
    }
}

/// Where graph and map are in step, every submap is anchored at the pose of its node; where
/// submaps are chained, an edge leads from each to the next; and no two submaps share a
/// node of their own.
pub proof fn law_anchors_follow_their_nodes<G>(slam: Slam<G>, i: int, j: int)
    requires
        0 <= i < j < slam.nodes_of().len(),
    ensures
        slam.in_step() ==> slam.poses().all_nodes()[slam.nodes_of()[i] as int].pose
            == slam.submaps().maps()[i].anchor_pose,
        slam.own_nodes() ==> slam.nodes_of()[i] != slam.nodes_of()[j],
        slam.chained() && j == i + 1 ==> exists|k: int|
            0 <= k < slam.poses().all_edges().len() && (#[trigger] slam.poses().all_edges()[k]).from
                == slam.nodes_of()[i] && slam.poses().all_edges()[k].to == slam.nodes_of()[j],
{
    if slam.chained() && j == i + 1 {
        assert(joined(slam.poses().all_edges(), slam.nodes_of()[j - 1], slam.nodes_of()[j]));
    }
    if slam.own_nodes() {
        assert(slam.nodes_of()[i] != slam.nodes_of()[j]);
    }
    assert(slam.nodes_of()[i] == slam.nodes_of()[i]);
}

/// A scan that counts is remembered behind those that were, as it was taken, as long as
/// there are fewer than ten; any other leaves them as they were.
pub proof fn law_ten_scans_are_remembered(
    before: Seq<RawScan>,
    after: Seq<RawScan>,
    counts: bool,
    pose_local: Pose2,
    scan: &Scan,
)
    requires
        remembers(before, after, counts, pose_local, scan),
    ensures
        counts && before.len() < 10 ==> after.len() == before.len() + 1
            && after.last().pose_in_submap == pose_local && after.last().scan.beams@ == scan.beams@
            && after.drop_last() == before,
        !counts || before.len() >= 10 ==> after == before,
        before.len() <= 10 ==> after.len() <= 10,
{
}

/// The stock pipeline: submaps of eight seconds or eighty centimetres, and witnesses
/// that may lie further apart than the loop closer alone would let them.
pub proof fn law_stock_pipeline()
    ensures
        ({
            let cfg = stock_config();
            let alone = crate::loop_closer::stock_config();
            &&& cfg.submap.max_age_s.bits == 0x4100_0000
            &&& cfg.submap.max_travel_m.bits == 0x3F4C_CCCD
            &&& cfg.submap.min_travel_for_age_m.bits == 0x3E19_999A
            &&& cfg.submap.min_travel_for_age_m.below(cfg.submap.max_travel_m)
            &&& cfg.loops.verify_max_spread_m.bits == 0x3DF5_C28F
            &&& cfg.loops.verify_max_spread_rad.bits == 0x3DB8_51EC
            &&& alone.verify_max_spread_m.below(cfg.loops.verify_max_spread_m)
            &&& alone.verify_max_spread_rad.below(cfg.loops.verify_max_spread_rad)
            &&& cfg.loops.max_residual_m == alone.max_residual_m
            &&& cfg.loops.verify_scans == alone.verify_scans
            &&& cfg.optimizer.max_iters == 50
            &&& cfg.optimizer.eps_xy.bits == 0x38D1_B717
            &&& cfg.optimizer.eps_yaw.bits == 0x38D1_B717
            &&& cfg.optimizer.lambda.bits == 0x3586_37BD
            &&& cfg.odom_sigma_xy.bits == 0x3DCC_CCCD
            &&& cfg.odom_sigma_yaw.bits == 0x3D4C_CCCD
        }),
{
}

} // verus!

use microduck::ieee::{Double, Single};
use microduck::optimizer::{
    begin, conclude, optimize as end_round, pinned_rows, pivot, OptimizeResult, OptimizerConfig,
    Placement,
};
use microduck::pose_graph::{PoseEdge, PoseGraph};
use microduck::submap::Pose2;

fn s(x: f32) -> Single {
    Single { bits: x.to_bits() }
}

fn f(x: Single) -> f32 {
    f32::from_bits(x.bits)
}

fn pose(x: f32, y: f32, yaw: f32) -> Pose2 {
    Pose2 {
        x: s(x),
        y: s(y),
        yaw: s(yaw),
    }
}

fn wrap_pi(a: f32) -> f32 {
    let pi = std::f32::consts::PI;
    let y = (a + pi).rem_euclid(2.0 * pi) - pi;
    if y == pi {
        -pi
    } else {
        y
    }
}

fn between(a: Pose2, b: Pose2) -> (f32, f32, f32) {
    let (dx, dy) = (f(b.x) - f(a.x), f(b.y) - f(a.y));
    let (ca, sa) = (f(a.yaw).cos(), f(a.yaw).sin());
    (
        ca * dx + sa * dy,
        -sa * dx + ca * dy,
        wrap_pi(f(b.yaw) - f(a.yaw)),
    )
}

fn information_from_sigmas(xy: f32, yaw: f32) -> [[Single; 3]; 3] {
    let (a, b, z) = (s(1.0 / (xy * xy)), s(1.0 / (yaw * yaw)), s(0.0));
    [[a, z, z], [z, a, z], [z, z, b]]
}

/// `a^T * b` for three by three.
fn t_mul(a: &[[f32; 3]; 3], b: &[[f32; 3]; 3]) -> [[f32; 3]; 3] {
    let mut o = [[0.0_f32; 3]; 3];
    for i in 0..3 {
        for j in 0..3 {
            for k in 0..3 {
                o[i][j] += a[k][i] * b[k][j];
            }
        }
    }
    o
}

fn solve(mut a: Vec<Vec<f64>>, mut b: Vec<f64>) -> Option<Vec<f64>> {
    let n = b.len();
    for i in 0..n {
        let column: Vec<Double> = (i..n)
            .map(|r| Double {
                bits: a[r][i].to_bits(),
            })
            .collect();
        let row = i + pivot(&column)?;
        a.swap(i, row);
        b.swap(i, row);
        for r in (i + 1)..n {
            let k = a[r][i] / a[i][i];
            for c in i..n {
                a[r][c] -= k * a[i][c];
            }
            b[r] -= k * b[i];
        }
    }
    let mut x = vec![0.0_f64; n];
    for i in (0..n).rev() {
        let mut rest = b[i];
        for c in (i + 1)..n {
            rest -= a[i][c] * x[c];
        }
        x[i] = rest / a[i][i];
    }
    Some(x)
}

fn optimize(graph: &mut PoseGraph, cfg: &OptimizerConfig) -> OptimizeResult {
    let mut rounds = begin(graph, cfg);
    while !rounds.done {
        let dim = 3 * graph.nodes().len();
        let mut h = vec![vec![0.0_f64; dim]; dim];
        let mut bv = vec![0.0_f64; dim];
        let mut cost = 0.0_f64;
        for edge in graph.edges() {
            let a = graph.nodes()[edge.from].pose;
            let b = graph.nodes()[edge.to].pose;
            let pred = between(a, b);
            let r = [
                pred.0 - f(edge.measurement.x),
                pred.1 - f(edge.measurement.y),
                wrap_pi(pred.2 - f(edge.measurement.yaw)),
            ];
            let info = edge.information.map(|row| row.map(f));
            let or: Vec<f32> = (0..3)
                .map(|i| info[i][0] * r[0] + info[i][1] * r[1] + info[i][2] * r[2])
                .collect();
            cost += f64::from(r[0] * or[0] + r[1] * or[1] + r[2] * or[2]);
            let (ca, sa) = (f(a.yaw).cos(), f(a.yaw).sin());
            let ja = [[-ca, -sa, pred.1], [sa, -ca, -pred.0], [0.0, 0.0, -1.0]];
            let jb = [[ca, sa, 0.0], [-sa, ca, 0.0], [0.0, 0.0, 1.0]];
            // The information is diagonal, so its transpose is itself.
            let (oa, ob) = (t_mul(&info, &ja), t_mul(&info, &jb));
            let (haa, hbb, hab) = (t_mul(&ja, &oa), t_mul(&jb, &ob), t_mul(&ja, &ob));
            let (p, q) = (3 * edge.from, 3 * edge.to);
            for i in 0..3 {
                for j in 0..3 {
                    h[p + i][p + j] += f64::from(haa[i][j]);
                    h[q + i][q + j] += f64::from(hbb[i][j]);
                    h[p + i][q + j] += f64::from(hab[i][j]);
                    h[q + i][p + j] += f64::from(hab[j][i]);
                }
                for k in 0..3 {
                    bv[p + i] += f64::from(ja[k][i] * or[k]);
                    bv[q + i] += f64::from(jb[k][i] * or[k]);
                }
            }
        }
        for (k, pinned) in pinned_rows(graph).into_iter().enumerate() {
            h[k][k] += f64::from(f(cfg.lambda));
            if pinned {
                for c in 0..dim {
                    h[k][c] = 0.0;
                    h[c][k] = 0.0;
                }
                h[k][k] = 1.0;
                bv[k] = 0.0;
            }
        }
        let placed = solve(h, bv.iter().map(|x| -x).collect()).map(|dx| {
            graph
                .nodes()
                .iter()
                .enumerate()
                .map(|(k, node)| {
                    let (x, y, yaw) = (
                        dx[3 * k] as f32,
                        dx[3 * k + 1] as f32,
                        dx[3 * k + 2] as f32,
                    );
                    Placement {
                        pose: pose(
                            f(node.pose.x) + x,
                            f(node.pose.y) + y,
                            wrap_pi(f(node.pose.yaw) + yaw),
                        ),
                        dxy: s((x * x + y * y).sqrt()),
                        dyaw: s(yaw),
                    }
                })
                .collect::<Vec<_>>()
        });
        let cost = Double {
            bits: cost.to_bits(),
        };
        rounds = end_round(rounds, graph, cfg, cost, placed.as_deref());
    }
    let cost: f64 = graph
        .edges()
        .iter()
        .map(|edge| {
            let pred = between(graph.nodes()[edge.from].pose, graph.nodes()[edge.to].pose);
            let r = [
                pred.0 - f(edge.measurement.x),
                pred.1 - f(edge.measurement.y),
                wrap_pi(pred.2 - f(edge.measurement.yaw)),
            ];
            (0..3).map(|i| f64::from(r[i] * f(edge.information[i][i]) * r[i])).sum::<f64>()
        })
        .sum();
    conclude(rounds, Double { bits: cost.to_bits() })
}

#[test]
fn the_final_cost_is_that_of_the_poses_left_behind() {
    let mut g = PoseGraph::new();
    g.add_node(pose(0.0, 0.0, 0.0), 0);
    g.add_node(pose(2.0, 0.0, 0.0), 1);
    g.add_edge(PoseEdge {
        from: 0,
        to: 1,
        measurement: pose(1.0, 0.0, 0.0),
        information: information_from_sigmas(1.0, 1.0),
    });
    let cfg = OptimizerConfig { max_iters: 1, eps_xy: s(1e-4), eps_yaw: s(1e-4), lambda: s(0.0) };
    let r = optimize(&mut g, &cfg);
    assert_eq!((r.iterations, r.converged), (1, false));
    assert_eq!(f64::from_bits(r.final_cost.bits), 0.0);
    assert_eq!(g.nodes()[0].pose, pose(0.0, 0.0, 0.0));
    assert_eq!(g.nodes()[1].pose, pose(1.0, 0.0, 0.0));
}

#[test]
fn straight_chain_with_consistent_edges_is_already_optimal() {
    let mut g = PoseGraph::new();
    g.add_node(pose(0.0, 0.0, 0.0), 0);
    g.add_node(pose(1.0, 0.0, 0.0), 1);
    g.add_node(pose(2.0, 0.0, 0.0), 2);
    g.add_edge(PoseEdge {
        from: 0,
        to: 1,
        measurement: pose(1.0, 0.0, 0.0),
        information: information_from_sigmas(0.05, 0.02),
    });
    g.add_edge(PoseEdge {
        from: 1,
        to: 2,
        measurement: pose(1.0, 0.0, 0.0),
        information: information_from_sigmas(0.05, 0.02),
    });
    let r = optimize(&mut g, &OptimizerConfig::default());
    assert!(r.converged);
    for (i, expected) in [0.0_f32, 1.0, 2.0].iter().enumerate() {
        assert!((f(g.nodes()[i].pose.x) - expected).abs() < 1e-3);
    }
}

#[test]
fn loop_closure_pulls_the_third_pose_back() {
    let pi = std::f32::consts::PI;
    let mut g = PoseGraph::new();
    g.add_node(pose(0.0, 0.0, 0.0), 0);
    g.add_node(pose(1.0, 0.0, 0.0), 1);
    g.add_node(pose(2.0, 0.5, pi), 2);
    g.add_edge(PoseEdge {
        from: 0,
        to: 1,
        measurement: pose(1.0, 0.0, 0.0),
        information: information_from_sigmas(0.10, 0.05),
    });
    g.add_edge(PoseEdge {
        from: 1,
        to: 2,
        measurement: pose(1.0, 0.0, pi),
        information: information_from_sigmas(0.10, 0.05),
    });
    g.add_edge(PoseEdge {
        from: 2,
        to: 0,
        measurement: pose(2.0, 0.0, -pi),
        information: information_from_sigmas(0.05, 0.02),
    });

    let r0 = optimize(&mut g, &OptimizerConfig::default());
    assert!(r0.converged, "didn't converge");
    let p2 = g.nodes()[2].pose;
    assert!((f(p2.x) - 2.0).abs() < 0.05, "p2.x = {}", f(p2.x));
    assert!((f(p2.y) - 0.0).abs() < 0.05, "p2.y = {}", f(p2.y));
    assert_eq!(g.nodes()[0].pose, pose(0.0, 0.0, 0.0), "the anchor stays");
}

#[test]
fn nothing_to_satisfy_has_converged() {
    let cfg = OptimizerConfig::default();
    let mut g = PoseGraph::new();
    assert!(begin(&g, &cfg).done);
    g.add_node(pose(0.0, 0.0, 0.0), 0);
    let rounds = begin(&g, &cfg);
    assert!(rounds.done && rounds.result.converged);
    assert_eq!(rounds.result.iterations, 0);
    assert_eq!(cfg.max_iters, 50);
    assert_eq!((f(cfg.eps_xy), f(cfg.lambda)), (1e-4, 1e-6));
}

#[test]
fn a_singular_system_ends_the_rounds() {
    let cfg = OptimizerConfig::default();
    let mut g = PoseGraph::new();
    g.add_node(pose(0.0, 0.0, 0.0), 0);
    g.add_node(pose(1.0, 0.0, 0.0), 1);
    g.add_edge(PoseEdge {
        from: 0,
        to: 1,
        measurement: pose(1.0, 0.0, 0.0),
        information: information_from_sigmas(0.1, 0.1),
    });
    let rounds = begin(&g, &cfg);
    assert!(!rounds.done);
    let cost = Double {
        bits: 3.0_f64.to_bits(),
    };
    let next = end_round(rounds, &mut g, &cfg, cost, None);
    assert!(next.done && !next.result.converged);
    assert_eq!(next.result.iterations, 1);
    assert_eq!(next.result.final_cost, cost);
    assert_eq!(pinned_rows(&g), vec![true, true, true, false, false, false]);
}

#[test]
fn the_pivot_is_the_largest_and_not_nothing() {
    let d = |x: f64| Double { bits: x.to_bits() };
    assert_eq!(pivot(&[d(1.0), d(-3.0), d(3.0)]), Some(1));
    assert_eq!(pivot(&[d(1e-13), d(-1e-13)]), None);
    assert_eq!(pivot(&[d(1e-12)]), Some(0));
}

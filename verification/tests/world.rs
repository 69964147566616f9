//! Whole runs over a simulated room: the library's decisions, with the arithmetic
//! in between done here.

#![allow(dead_code)]

use microduck::accumulator::{Sight, WindowAccumulator};
use microduck::global_render::{Bounds, GlobalRenderConfig, Layer, footprint_of};
use microduck::grid::{LogRange, OccupancyGrid};
use microduck::ieee::{Double, Single};
use microduck::loop_closer::{
    Evidence, Gap, LoopCloserConfig, LoopClosure, Scored, Testimony, Trial, candidates,
    is_credible, is_within_reach, pick_witnesses,
};
use microduck::mapper::{
    Ask, Candidate, Check, Event, Kept, Mapper, MapperConfig, MapperSample, Note,
};
use microduck::mcl::{
    Bin, Draw, Localizer, MclConfig, UpdateAsk, UpdateEvent, cluster_members, count_within,
    densest_bin,
};
use microduck::optimizer::{OptimizeResult, Placement, begin, conclude, pinned_rows, pivot};
use microduck::pipeline::{Links, SessionState, Slam, SlamConfig, loop_sigma};
use microduck::pose_graph::{PoseEdge, PoseGraph};
use microduck::relocalize::{
    Fate, Patch, PoseAgreement, RelocalizeConfig, RelocalizeResult, Sighting, cell_at,
    coarse_centres, coarse_top, count_on_map, fate_of, free_cells, is_searchable, judged_cells,
    pick_seeds, rank, refine_cells, yaw_bins,
};
use microduck::rng::{NormalDraw, Rng};
use microduck::scan_matcher::{
    Landing, ScanMatchConfig, ScanMatchResult, Step, advance, corner_cells, is_informative,
};
use microduck::submap::{Beam, Point, Pose2, Reading, Scan, Submap};
use microduck::submap_manager::Progress;

/// A pose as plain numbers: x, y and heading.
type Pose = (f32, f32, f32);

fn single(x: f32) -> Single {
    Single { bits: x.to_bits() }
}

fn float(x: Single) -> f32 {
    f32::from_bits(x.bits)
}

fn double(x: f64) -> Double {
    Double { bits: x.to_bits() }
}

fn pose2(p: Pose) -> Pose2 {
    Pose2 { x: single(p.0), y: single(p.1), yaw: single(p.2) }
}

fn pose(p: Pose2) -> Pose {
    (float(p.x), float(p.y), float(p.yaw))
}

fn point(x: f32, y: f32) -> Point {
    Point { x: single(x), y: single(y) }
}

/// Brings an angle into `[-pi, pi)`. Floating point all through.
fn wrap_pi(a: f32) -> f32 {
    let pi = std::f32::consts::PI;
    let y = (a + pi).rem_euclid(2.0 * pi) - pi;
    if y == pi {
        -pi
    } else {
        y
    }
}

/// The pose `b_local`, given in the frame of `a`, in the world. Floating point all
/// through.
fn compose(a: Pose, b_local: Pose) -> Pose {
    let (sa, ca) = (a.2.sin(), a.2.cos());
    (
        a.0 + ca * b_local.0 - sa * b_local.1,
        a.1 + sa * b_local.0 + ca * b_local.1,
        wrap_pi(a.2 + b_local.2),
    )
}

/// The pose that undoes `p`. Floating point all through.
fn inverse(p: Pose) -> Pose {
    let (s, c) = (p.2.sin(), p.2.cos());
    (-(c * p.0 + s * p.1), s * p.0 - c * p.1, -p.2)
}

/// The pose of `b` in the frame of `a`. Floating point all through.
fn between(a: Pose, b: Pose) -> Pose {
    let (dx, dy) = (b.0 - a.0, b.1 - a.1);
    let (sa, ca) = (a.2.sin(), a.2.cos());
    (ca * dx + sa * dy, -sa * dx + ca * dy, wrap_pi(b.2 - a.2))
}

/// A body pose in the frame of a submap. Floating point all through.
fn world_to_local(anchor: Pose, body: Pose) -> Pose {
    between(anchor, body)
}

/// The information matrix of an edge that is off by this much. Floating point all
/// through.
fn information_from_sigmas(sigma_xy: f32, sigma_yaw: f32) -> [[Single; 3]; 3] {
    let xy = single(1.0 / (sigma_xy * sigma_xy));
    let yaw = single(1.0 / (sigma_yaw * sigma_yaw));
    let zero = single(0.0);
    [[xy, zero, zero], [zero, xy, zero], [zero, zero, yaw]]
}

/// A grid laid over the ground.
trait Chart: Sized {
    fn cells(&self) -> &OccupancyGrid;
    fn x_range(&self) -> (f32, f32);
    fn y_range(&self) -> (f32, f32);
    fn cell(&self) -> f32;
    /// The range that log-odds are held in.
    fn log_range(&self) -> LogRange;
    /// Whether the cell is known to be free.
    fn is_known_free(&self, i: usize, j: usize) -> bool;
    /// How far each cell is from the nearest one above the threshold, row by row.
    fn distance_field(&self, threshold_fp: i16) -> Vec<f32>;
    /// Marks a ray; says whether it touched the grid.
    fn integrate_ray(&mut self, from: (f32, f32), to: (f32, f32), hit: bool) -> bool;
    /// The same ground, with nothing on it.
    fn blank(&self) -> Self;
    /// How many columns and rows cover this ground.
    fn extent(x_range: (f32, f32), y_range: (f32, f32), cell: f32) -> (usize, usize);
    /// The grid with these cells.
    fn of_cells(cells: OccupancyGrid, x_range: (f32, f32), y_range: (f32, f32), cell: f32)
        -> Self;

    fn world_to_cell(&self, x: f32, y: f32) -> (i32, i32) {
        let j = ((x - self.x_range().0) / self.cell()).floor() as i32;
        let i = ((y - self.y_range().0) / self.cell()).floor() as i32;
        (i, j)
    }

    fn world_to_idx(&self, x: f32, y: f32) -> Option<(usize, usize)> {
        let (i, j) = self.world_to_cell(x, y);
        cell_at(self.cells(), (i, j)).map(|_| (i as usize, j as usize))
    }

    fn centre(&self, i: usize, j: usize) -> (f32, f32) {
        (
            self.x_range().0 + (j as f32 + 0.5) * self.cell(),
            self.y_range().0 + (i as f32 + 0.5) * self.cell(),
        )
    }

    /// Which cells are known to be free, row by row.
    fn free_mask(&self) -> Vec<bool> {
        let (w, h) = (self.cells().width(), self.cells().height());
        let mut free = Vec::with_capacity(w * h);
        for i in 0..h {
            for j in 0..w {
                free.push(self.is_known_free(i, j));
            }
        }
        free
    }
}

/// The scan of one sensor's polar readings.
fn polar(angles: &[f32], ranges: &[f32], sensor: (f32, f32), min_range: f32) -> Scan {
    let readings: Vec<Reading> = angles
        .iter()
        .zip(ranges)
        .map(|(&a, &r)| Reading {
            angle: single(a),
            range: single(r),
            end: point(sensor.0 + r * a.cos(), sensor.1 + r * a.sin()),
        })
        .collect();
    Scan::from_polar(&readings, point(sensor.0, sensor.1), single(min_range))
}

fn endpoints(scan: &Scan) -> Vec<(f32, f32)> {
    scan.endpoints_body().iter().map(|p| (float(p.x), float(p.y))).collect()
}

/// Casts a scan's rays into a grid at a local pose; says whether one touched it.
fn cast<C: Chart>(grid: &mut C, local: Pose, scan: &Scan, passes: usize) -> bool {
    let lengths: Vec<_> = scan
        .beams
        .iter()
        .map(|b| {
            let dx = float(b.end.x) - float(b.origin.x);
            let dy = float(b.end.y) - float(b.origin.y);
            single(dx * dx + dy * dy)
        })
        .collect();
    let cell = grid.cell();
    let picked = microduck::submap::rays(&lengths, single(cell * cell));
    let (s, c) = (local.2.sin(), local.2.cos());
    let mut touched = false;
    for _ in 0..passes {
        for &k in &picked {
            let beam = scan.beams[k];
            let world = |x: f32, y: f32| (local.0 + c * x - s * y, local.1 + s * x + c * y);
            let from = world(float(beam.origin.x), float(beam.origin.y));
            let to = world(float(beam.end.x), float(beam.end.y));
            touched |= grid.integrate_ray(from, to, true);
        }
    }
    touched
}

/// Inks a scan into a submap.
fn ink<C: Chart>(map: &mut Submap<C>, body: Pose, scan: &Scan, passes: usize) {
    let local = world_to_local(pose(map.anchor_pose()), body);
    let passes = map.casts(pose2(body), passes);
    let touched = cast(map.grid_mut(), local, scan, passes);
    map.integrate_scan_weighted(pose2(body), pose2(local), scan, touched);
}

/// Inks a scan into the active submap of a session, if there is one.
fn ink_current<C: Chart>(
    slam: &mut microduck::pipeline::Slam<C>,
    body: Pose,
    scan: &Scan,
    passes: usize,
) {
    let Some(current) = slam.manager().current() else {
        return;
    };
    let local = world_to_local(pose(current.anchor_pose()), body);
    let passes = current.casts(pose2(body), passes);
    let touched = match slam.current_grid() {
        Some(grid) => cast(grid, local, scan, passes),
        None => false,
    };
    slam.integrate_weighted(pose2(body), pose2(local), scan, touched);
}

/// The interpolated distance at a point, and its slope.
/// Floating point all through.
fn sample<C: Chart>(grid: &C, field: &[f32], x: f32, y: f32) -> (f32, f32, f32) {
    let inv = 1.0 / grid.cell();
    let cx = (x - grid.x_range().0) * inv - 0.5;
    let cy = (y - grid.y_range().0) * inv - 0.5;
    let (i0, j0) = (cy.floor() as i32, cx.floor() as i32);
    let (h, w) = (grid.cells().height(), grid.cells().width());
    let Some(at) = corner_cells(i0, j0, h, w) else {
        return (f32::INFINITY, 0.0, 0.0);
    };
    let (fx, fy) = (cx - j0 as f32, cy - i0 as f32);
    let (d00, d01, d10, d11) = (field[at[0]], field[at[1]], field[at[2]], field[at[3]]);
    let d = (1.0 - fx) * (1.0 - fy) * d00
        + fx * (1.0 - fy) * d01
        + (1.0 - fx) * fy * d10
        + fx * fy * d11;
    let dx = ((d01 - d00) * (1.0 - fy) + (d11 - d10) * fy) * inv;
    let dy = ((d10 - d00) * (1.0 - fx) + (d11 - d01) * fx) * inv;
    (d, dx, dy)
}

/// Solves three equations; floating point all through.
fn solve_3x3(a: &[[f32; 3]; 3], b: &[f32; 3]) -> Option<[f32; 3]> {
    let minor = |r: usize, c: usize| {
        let (r0, r1) = ((r + 1) % 3, (r + 2) % 3);
        let (c0, c1) = ((c + 1) % 3, (c + 2) % 3);
        a[r0][c0] * a[r1][c1] - a[r0][c1] * a[r1][c0]
    };
    let det = a[0][0] * minor(0, 0) + a[0][1] * minor(0, 1) + a[0][2] * minor(0, 2);
    if det.abs() < 1e-9 {
        return None;
    }
    let inv = 1.0 / det;
    let row = |r: usize| {
        (minor(0, r) * b[0] + minor(1, r) * b[1] + minor(2, r) * b[2]) * inv
    };
    Some([row(0), row(1), row(2)])
}

/// One round of refinement from a pose.
/// The sums are floating point; which beams count, and what a round means, is not.
fn round<C: Chart>(
    grid: &C,
    field: &[f32],
    ends: &[(f32, f32)],
    at: Pose,
    prior: Option<Pose>,
    cfg: &ScanMatchConfig,
) -> (Vec<Single>, Option<Step>) {
    let (x, y, yaw) = at;
    let (sin, cos) = yaw.sin_cos();
    let mut hm = [[0.0f32; 3]; 3];
    let mut gv = [0.0f32; 3];
    let mut distances: Vec<Single> = Vec::with_capacity(ends.len());
    for &(bx, by) in ends {
        let (d, dx, dy) = sample(grid, field, x + cos * bx - sin * by, y + sin * bx + cos * by);
        distances.push(single(d));
        if !is_informative(single(d), cfg.sigma_m) {
            continue;
        }
        let turn = dx * (-sin * bx - cos * by) + dy * (cos * bx - sin * by);
        let js = [dx, dy, turn];
        for a in 0..3 {
            for b in 0..3 {
                hm[a][b] += js[a] * js[b];
            }
            gv[a] += js[a] * d;
        }
    }
    if let Some((px, py, pyaw)) = prior {
        let (sxy, syaw) = (float(cfg.prior_sigma_xy), float(cfg.prior_sigma_yaw));
        if sxy > 0.0 {
            let inv2 = 1.0 / (sxy * sxy);
            hm[0][0] += inv2;
            hm[1][1] += inv2;
            gv[0] += inv2 * (x - px);
            gv[1] += inv2 * (y - py);
        }
        if syaw > 0.0 {
            let inv2 = 1.0 / (syaw * syaw);
            hm[2][2] += inv2;
            gv[2] += inv2 * wrap_pi(yaw - pyaw);
        }
    }
    for (k, row) in hm.iter_mut().enumerate() {
        row[k] += float(cfg.lambda);
    }
    let solved = solve_3x3(&hm, &gv).map(|d| Step {
        pose: pose2((x - d[0], y - d[1], wrap_pi(yaw - d[2]))),
        dx: single(-d[0]),
        dy: single(-d[1]),
        dyaw: single(-d[2]),
    });
    (distances, solved)
}

/// Refines a pose until the scan's ends lie on the grid's walls.
/// The residual is floating point.
fn match_to<C: Chart>(
    grid: &C,
    scan: &Scan,
    initial: Pose,
    prior: Option<Pose>,
    cfg: &ScanMatchConfig,
) -> ScanMatchResult {
    let ends = endpoints(scan);
    let field = grid.distance_field(cfg.occ_threshold_fp);
    let mut r = microduck::scan_matcher::begin(cfg, pose2(initial));
    while !r.done && r.iterations < cfg.max_iters {
        let (distances, solved) = round(grid, &field, &ends, pose(r.pose), prior, cfg);
        r = advance(cfg, r, &distances, solved);
    }
    let (x, y, yaw) = pose(r.pose);
    let (sin, cos) = yaw.sin_cos();
    let (mut sum, mut used) = (0.0f32, 0u32);
    let landings: Vec<Landing> = ends
        .iter()
        .map(|&(bx, by)| {
            let (ex, ey) = (x + cos * bx - sin * by, y + sin * bx + cos * by);
            let (d, _, _) = sample(grid, &field, ex, ey);
            if is_informative(single(d), cfg.sigma_m) {
                sum += d * d;
                used += 1;
            }
            Landing {
                distance: single(d),
                log: grid.world_to_idx(ex, ey).map(|(i, j)| grid.cells().log_at(i, j)),
            }
        })
        .collect();
    let residual = if used > 0 { (sum / used as f32).sqrt() } else { f32::INFINITY };
    microduck::scan_matcher::match_scan(r, scan, &landings, cfg, single(residual))
}

/// The best-scoring pose of a window around the seed.
/// The scores are floating point.
fn search_near<C: Chart>(grid: &C, scan: &Scan, seed: Pose, cfg: &LoopCloserConfig) -> Pose {
    let ends = endpoints(scan);
    let field = grid.distance_field(cfg.sm.occ_threshold_fp);
    let clamp = float(cfg.sm.sigma_m);
    let step = float(cfg.coarse_step_m).max(grid.cell());
    let n_xy = (float(cfg.coarse_radius_m) / step).round() as i32;
    let yaw_step = float(cfg.coarse_yaw_step_rad).max(1e-3);
    let n_yaw = (float(cfg.coarse_yaw_half_rad) / yaw_step).round() as i32;
    let mut scored: Vec<Scored> = Vec::new();
    for yi in -n_yaw..=n_yaw {
        let yaw = seed.2 + yi as f32 * yaw_step;
        let (s, c) = yaw.sin_cos();
        let turned: Vec<(f32, f32)> =
            ends.iter().map(|&(x, y)| (c * x - s * y, s * x + c * y)).collect();
        for dyi in -n_xy..=n_xy {
            for dxi in -n_xy..=n_xy {
                let (cx, cy) = (seed.0 + dxi as f32 * step, seed.1 + dyi as f32 * step);
                let mut sum = 0.0f32;
                for &(ox, oy) in &turned {
                    let end = grid.world_to_cell(cx + ox, cy + oy);
                    sum += cell_at(grid.cells(), end).map_or(clamp, |k| field[k].min(clamp));
                }
                scored.push(Scored {
                    pose: pose2((cx, cy, yaw)),
                    score: single(sum / turned.len() as f32),
                });
            }
        }
    }
    pose(microduck::loop_closer::coarse_search(scan, pose2(seed), &scored))
}

fn mean(xs: impl Iterator<Item = f32> + Clone) -> f32 {
    let n = xs.clone().count() as f32;
    xs.sum::<f32>() / n
}

/// Matches the picked scans of the new submap to an older one.
/// The poses compared are floating point.
fn testify<C: Chart>(
    maps: &[Submap<C>],
    older_idx: usize,
    new_idx: usize,
    cfg: &LoopCloserConfig,
) -> Evidence {
    let older = pose(maps[older_idx].anchor_pose());
    let new = pose(maps[new_idx].anchor_pose());
    let scans = maps[new_idx].raw_scans();
    let picked = pick_witnesses(scans, cfg);
    let mut testimonies: Vec<Testimony> = Vec::new();
    let mut anchors: Vec<Pose> = Vec::new();
    if picked.len() >= 2 {
        for &k in &picked {
            let filed = pose(scans[k].pose_in_submap);
            let in_older = between(older, compose(new, filed));
            let probe = scans[k].scan.decimated(cfg.max_probe_beams);
            let grid = maps[older_idx].grid();
            let seed = search_near(grid, &probe, in_older, cfg);
            let result = match_to(grid, &probe, seed, Some(seed), &cfg.sm);
            let coverage = if result.n_beams_valid > 0 {
                result.n_beams_observed as f32 / result.n_beams_valid as f32
            } else {
                0.0
            };
            let said = Testimony {
                residual_m: result.residual_m,
                n_beams_used: result.n_beams_used,
                coverage: single(coverage),
            };
            anchors.push(compose(compose(older, pose(result.pose)), inverse(filed)));
            testimonies.push(said);
            if !is_credible(cfg, said) {
                break;
            }
        }
    }
    let consensus = if anchors.is_empty() {
        new
    } else {
        let sin: f32 = anchors.iter().map(|a| a.2.sin()).sum();
        let cos: f32 = anchors.iter().map(|a| a.2.cos()).sum();
        (
            mean(anchors.iter().map(|a| a.0)),
            mean(anchors.iter().map(|a| a.1)),
            sin.atan2(cos),
        )
    };
    let gap = |xy: f32, yaw: f32| Gap { xy: single(xy), yaw: single(yaw) };
    let spread = anchors
        .iter()
        .map(|a| {
            let d = ((a.0 - consensus.0).powi(2) + (a.1 - consensus.1).powi(2)).sqrt();
            gap(d, wrap_pi(a.2 - consensus.2).abs())
        })
        .collect();
    let measurement = between(older, consensus);
    let predicted = between(older, new);
    let correction = gap(
        ((measurement.0 - predicted.0).powi(2) + (measurement.1 - predicted.1).powi(2)).sqrt(),
        wrap_pi(measurement.2 - predicted.2).abs(),
    );
    let apart = (new_idx - older_idx) as f32;
    let most = |base: Single, per: Single, cap: Single| {
        (float(base) + float(per) * apart).min(float(cap))
    };
    let allowed = gap(
        most(
            cfg.max_correction_base_m,
            cfg.max_correction_per_submap_m,
            cfg.max_correction_cap_m,
        ),
        most(
            cfg.max_correction_base_rad,
            cfg.max_correction_per_submap_rad,
            cfg.max_correction_cap_rad,
        ),
    );
    Evidence { testimonies, spread, correction, allowed, measurement: pose2(measurement) }
}

/// The loops that a freshly closed submap closes.
fn find_loops<C: Chart>(
    maps: &[Submap<C>],
    new_idx: usize,
    cfg: &LoopCloserConfig,
) -> Vec<LoopClosure> {
    let n = maps.len();
    let scans = if new_idx < n { maps[new_idx].raw_scans() } else { &[] };
    let older = candidates(n, new_idx, scans.len(), cfg);
    let trials: Vec<Trial> = older
        .iter()
        .map(|&older_idx| {
            let a = pose(maps[older_idx].anchor_pose());
            let b = pose(maps[new_idx].anchor_pose());
            let (dx, dy) = (b.0 - a.0, b.1 - a.1);
            let distance = single((dx * dx + dy * dy).sqrt());
            let evidence = if is_within_reach(cfg, distance) {
                Some(testify(maps, older_idx, new_idx, cfg))
            } else {
                None
            };
            Trial { older_idx, distance, evidence }
        })
        .collect();
    microduck::loop_closer::detect_loops(n, new_idx, scans, &trials, cfg)
}

type Matrix = [[f32; 3]; 3];

/// Floating point all through.
fn times(a: &Matrix, b: &Matrix) -> Matrix {
    let mut o = [[0.0f32; 3]; 3];
    for (i, row) in o.iter_mut().enumerate() {
        for (j, x) in row.iter_mut().enumerate() {
            *x = (0..3).map(|k| a[i][k] * b[k][j]).sum();
        }
    }
    o
}

/// Floating point all through.
fn transposed(a: &Matrix) -> Matrix {
    let mut o = [[0.0f32; 3]; 3];
    for (i, row) in o.iter_mut().enumerate() {
        for (j, x) in row.iter_mut().enumerate() {
            *x = a[j][i];
        }
    }
    o
}

/// Floating point all through.
fn applied(a: &Matrix, v: &[f32; 3]) -> [f32; 3] {
    let row = |i: usize| (0..3).map(|k| a[i][k] * v[k]).sum();
    [row(0), row(1), row(2)]
}

/// Gaussian elimination with partial pivoting.
/// Floating point but for the choice of the pivot.
fn solve(mut a: Vec<Vec<f64>>, mut b: Vec<f64>) -> Option<Vec<f64>> {
    let n = b.len();
    for i in 0..n {
        let column: Vec<Double> = (i..n).map(|r| double(a[r][i])).collect();
        let best = i + pivot(&column)?;
        a.swap(i, best);
        b.swap(i, best);
        for r in i + 1..n {
            let f = a[r][i] / a[i][i];
            if f == 0.0 {
                continue;
            }
            for c in i..n {
                a[r][c] -= f * a[i][c];
            }
            b[r] -= f * b[i];
        }
    }
    let mut x = vec![0.0f64; n];
    for i in (0..n).rev() {
        let tail: f64 = (i + 1..n).map(|c| a[i][c] * x[c]).sum();
        x[i] = (b[i] - tail) / a[i][i];
    }
    Some(x)
}

/// The second node of an edge as seen from the first, how far that is from what was
/// measured, weighed by how sure that is, and the edge's share of the cost.
/// Floating point all through.
fn residual(graph: &PoseGraph, edge: &PoseEdge) -> (Pose, [f32; 3], f64) {
    let a = pose(graph.nodes()[edge.from].pose);
    let b = pose(graph.nodes()[edge.to].pose);
    let z = pose(edge.measurement);
    let p = between(a, b);
    let r = [p.0 - z.0, p.1 - z.1, wrap_pi(p.2 - z.2)];
    let weighed = applied(&edge.information.map(|row| row.map(float)), &r);
    let cost = (r[0] * weighed[0] + r[1] * weighed[1] + r[2] * weighed[2]) as f64;
    (p, weighed, cost)
}

/// The sum of squared edge residuals where the graph stands.
/// Floating point all through.
fn cost_of(graph: &PoseGraph) -> f64 {
    graph.edges().iter().map(|edge| residual(graph, edge).2).sum()
}

/// Linearises the graph where it stands: its cost, and where one step would put each
/// node, if the system has a solution.
/// Floating point all through.
fn linearise(graph: &PoseGraph, lambda: f32) -> (f64, Option<Vec<Placement>>) {
    let n = graph.nodes().len();
    let dim = 3 * n;
    let mut h = vec![vec![0.0f64; dim]; dim];
    let mut bv = vec![0.0f64; dim];
    for edge in graph.edges() {
        let a = pose(graph.nodes()[edge.from].pose);
        let info: Matrix = edge.information.map(|row| row.map(float));
        let (p, weighed, _) = residual(graph, edge);
        let (sa, ca) = (a.2.sin(), a.2.cos());
        let ja: Matrix = [[-ca, -sa, p.1], [sa, -ca, -p.0], [0.0, 0.0, -1.0]];
        let jb: Matrix = [[ca, sa, 0.0], [-sa, ca, 0.0], [0.0, 0.0, 1.0]];
        let (ta, tb) = (transposed(&ja), transposed(&jb));
        let (wa, wb) = (times(&info, &ja), times(&info, &jb));
        let (haa, hbb, hab) = (times(&ta, &wa), times(&tb, &wb), times(&ta, &wb));
        let (ba, bb) = (applied(&ta, &weighed), applied(&tb, &weighed));
        let (from, to) = (3 * edge.from, 3 * edge.to);
        for i in 0..3 {
            for j in 0..3 {
                h[from + i][from + j] += haa[i][j] as f64;
                h[to + i][to + j] += hbb[i][j] as f64;
                h[from + i][to + j] += hab[i][j] as f64;
                h[to + i][from + j] += hab[j][i] as f64;
            }
            bv[from + i] += ba[i] as f64;
            bv[to + i] += bb[i] as f64;
        }
    }
    for (d, row) in h.iter_mut().enumerate() {
        row[d] += lambda as f64;
    }
    for (row, pinned) in pinned_rows(graph).into_iter().enumerate() {
        if pinned {
            for c in 0..dim {
                h[row][c] = 0.0;
                h[c][row] = 0.0;
            }
            h[row][row] = 1.0;
            bv[row] = 0.0;
        }
    }
    let step = solve(h, bv.iter().map(|x| -x).collect());
    let placed = step.map(|dx| {
        graph
            .nodes()
            .iter()
            .enumerate()
            .map(|(k, node)| {
                let (x, y, yaw) = pose(node.pose);
                let (ux, uy, uyaw) =
                    (dx[3 * k] as f32, dx[3 * k + 1] as f32, dx[3 * k + 2] as f32);
                Placement {
                    pose: pose2((x + ux, y + uy, wrap_pi(yaw + uyaw))),
                    dxy: single((ux * ux + uy * uy).sqrt()),
                    dyaw: single(uyaw.abs()),
                }
            })
            .collect()
    });
    (cost_of(graph), placed)
}

fn corners<C: Chart>(grid: &C) -> [(f32, f32); 4] {
    let (x, y) = (grid.x_range(), grid.y_range());
    [(x.0, y.0), (x.0, y.1), (x.1, y.0), (x.1, y.1)]
}

/// The corners are floating point.
fn bounds_of<C: Chart>(map: &Submap<C>, b: Bounds) -> Bounds {
    let anchor = pose(map.anchor_pose());
    let (s, c) = (anchor.2.sin(), anchor.2.cos());
    corners(map.grid()).into_iter().fold(b, |b, (x, y)| {
        b.cover(single(anchor.0 + c * x - s * y), single(anchor.1 + s * x + c * y))
    })
}

/// The global map under some submaps.
/// Where each cell looks is floating point.
fn render<C: Chart>(
    maps: &[&Submap<C>],
    cfg: &microduck::global_render::GlobalRenderConfig,
) -> Option<C> {
    let first = maps.first()?;
    let all = maps.iter().fold(Bounds::empty(), |b, m| bounds_of(m, b));
    let (m, cell) = (float(cfg.margin_m), float(cfg.cell_m));
    let x_range = (float(all.min_x) - m, float(all.max_x) + m);
    let y_range = (float(all.min_y) - m, float(all.max_y) + m);
    let (w, h) = C::extent(x_range, y_range, cell);
    if w == 0 || h == 0 || w.checked_mul(h).is_none() {
        return None;
    }
    let to_cell = |x: f32, y: f32| {
        let j = ((x - x_range.0) / cell).floor() as i32;
        let i = ((y - y_range.0) / cell).floor() as i32;
        (i, j)
    };
    let layers: Vec<Layer> = maps
        .iter()
        .map(|map| {
            let b = bounds_of(map, Bounds::empty());
            let lo = to_cell(float(b.min_x), float(b.min_y));
            let hi = to_cell(float(b.max_x), float(b.max_y));
            let footprint = footprint_of(lo, hi, w, h);
            let anchor = pose(map.anchor_pose());
            let (s, c) = (anchor.2.sin(), anchor.2.cos());
            let mut samples = Vec::new();
            for i in footprint.i_lo..=footprint.i_hi {
                let y = y_range.0 + (i as f32 + 0.5) * cell;
                for j in footprint.j_lo..=footprint.j_hi {
                    let x = x_range.0 + (j as f32 + 0.5) * cell;
                    let (dx, dy) = (x - anchor.0, y - anchor.1);
                    samples.push(map.grid().world_to_idx(c * dx + s * dy, -s * dx + c * dy));
                }
            }
            Layer { grid: map.grid().cells(), footprint, samples }
        })
        .collect();
    let cells =
        microduck::global_render::render_global(&layers, w, h, cfg, first.grid().log_range())?;
    Some(C::of_cells(cells, x_range, y_range, cell))
}

/// A mapping session.
struct Session<C> {
    slam: Slam<C>,
    cfg: SlamConfig,
    ground: C,
}

impl<C: Chart> Session<C> {
    /// A session whose submaps are laid out like `ground`.
    fn new(cfg: SlamConfig, ground: C) -> Self {
        Session { slam: Slam::new(cfg), cfg, ground }
    }

    /// A session that goes on where a saved one stopped. Panics on one whose graph and
    /// submaps do not fit together.
    fn resume(cfg: SlamConfig, ground: C, saved: SessionState<C>) -> Self {
        let slam = Slam::from_session(cfg, saved);
        assert!(slam.is_sound(), "the saved graph does not fit the saved submaps");
        Session { slam, cfg, ground }
    }

    /// Takes in an odometry reading.
    fn observe_odom(&mut self, odom: Pose) {
        let here = pose(self.slam.tracked_pose());
        let moved = match self.slam.last_odom() {
            Some(last) => compose(here, between(pose(last), odom)),
            None => here,
        };
        self.slam.observe_odom(pose2(odom), pose2(moved));
    }

    /// Lets the submaps age, and closes what loops there are. Tells whether one froze.
    fn tick(&mut self, now_s: f32) -> bool {
        let here = pose(self.slam.tracked_pose());
        let progress = match self.slam.manager().current() {
            Some(map) => {
                let anchor = pose(map.anchor_pose());
                let age = match self.slam.manager().started() {
                    Some(t0) => now_s - float(t0),
                    None => 0.0,
                };
                Progress {
                    travel: single((here.0 - anchor.0).hypot(here.1 - anchor.1)),
                    age: single(age),
                }
            }
            None => Progress { travel: single(0.0), age: single(0.0) },
        };
        let seen = |from: Option<microduck::submap::Pose2>| match from {
            Some(p) => pose2(between(pose(p), here)),
            None => pose2(here),
        };
        let links = Links {
            from_newest: seen(self.slam.newest()),
            from_edge: seen(self.slam.edge_start()),
        };
        let information = information_from_sigmas(
            float(self.cfg.odom_sigma_xy),
            float(self.cfg.odom_sigma_yaw),
        );
        let ticked =
            self.slam.tick(single(now_s), progress, links, information, self.ground.blank());
        if let Some(idx) = ticked.search_from {
            let loops = find_loops(self.slam.manager().frozen(), idx, &self.cfg.loops);
            if !loops.is_empty() {
                self.close(&loops);
            }
        }
        ticked.froze
    }

    /// Moves the graph's nodes to where they best fit its edges.
    fn optimize(&mut self) -> OptimizeResult {
        let mut rounds = begin(self.slam.graph(), &self.cfg.optimizer);
        while !rounds.done && rounds.result.iterations < self.cfg.optimizer.max_iters {
            let (cost, placed) = linearise(self.slam.graph(), float(self.cfg.optimizer.lambda));
            rounds = self.slam.optimize_round(rounds, double(cost), placed.as_deref());
        }
        conclude(rounds, double(cost_of(self.slam.graph())))
    }

    fn close(&mut self, loops: &[microduck::loop_closer::LoopClosure]) {
        let base = float(self.cfg.loops.edge_sigma_xy);
        let information: Vec<_> = loops
            .iter()
            .map(|found| {
                let sigma = float(loop_sigma(&self.cfg, found.residual_m));
                let yaw = float(self.cfg.loops.edge_sigma_yaw) * (sigma / base);
                information_from_sigmas(sigma, yaw)
            })
            .collect();
        let before = self.slam.newest().map(pose);
        self.slam.close_loops(loops, &information);
        self.optimize();
        let here = pose(self.slam.tracked_pose());
        let moved = match (before, self.slam.newest().map(pose)) {
            (Some(old), Some(new)) => compose(new, between(old, here)),
            _ => here,
        };
        self.slam.reanchor(pose2(moved));
    }

    fn integrate(&mut self, body: Pose, scan: &Scan, passes: usize) {
        ink_current(&mut self.slam, body, scan, passes);
    }

    fn render(&self) -> Option<C> {
        render(&self.slam.manager().all(), &self.cfg.render)
    }
}

/// Floating point all through.
fn turned(ends: &[(f32, f32)], yaw: f32) -> Vec<(f32, f32)> {
    let (s, c) = yaw.sin_cos();
    ends.iter().map(|&(x, y)| (c * x - s * y, s * x + c * y)).collect()
}

/// How well a scan agrees with the map at a known pose.
/// The mean is floating point.
fn agreement<C: Chart>(
    grid: &C,
    scan: &Scan,
    at: Pose,
    clamp_m: f32,
    wall_fp: i16,
    observed_fp: i16,
) -> PoseAgreement {
    let field = grid.distance_field(wall_fp);
    let ends: Vec<(i32, i32)> = turned(&endpoints(scan), at.2)
        .iter()
        .map(|&(x, y)| grid.world_to_cell(at.0 + x, at.1 + y))
        .collect();
    let judged = judged_cells(grid.cells(), &ends, observed_fp);
    let sum: f32 = judged.iter().map(|&k| field[k].min(clamp_m)).sum();
    let mean = if judged.is_empty() { 0.0 } else { sum / judged.len() as f32 };
    microduck::relocalize::score_pose(grid.cells(), scan, &ends, observed_fp, single(mean))
}

/// The scan at one pose; `offsets` are its ends, turned.
/// The mean is floating point.
fn sight<C: Chart>(
    grid: &C,
    field: &[f32],
    offsets: &[(f32, f32)],
    at: Pose,
    cfg: &RelocalizeConfig,
) -> Sighting {
    let clamp = float(cfg.clamp_m);
    let mut sum = 0.0f32;
    let fates: Vec<Fate> = offsets
        .iter()
        .map(|&(ox, oy)| {
            let end = grid.world_to_cell(at.0 + ox, at.1 + oy);
            let mid = grid.world_to_cell(at.0 + 0.5 * ox, at.1 + 0.5 * oy);
            let fate = fate_of(grid.cells(), end, mid, cfg.see_through_fp);
            sum += match fate {
                Fate::Lands(k) => field[k].min(clamp),
                Fate::Off | Fate::Through => clamp,
            };
            fate
        })
        .collect();
    Sighting {
        pose: pose2(at),
        mean: single(sum / offsets.len() as f32),
        n: count_on_map(&fates),
    }
}

/// Scores all headings, two workers taking turns.
fn over_headings(
    bins: usize,
    score: &dyn Fn(usize) -> Vec<RelocalizeResult>,
) -> Vec<RelocalizeResult> {
    (0..2).flat_map(|t| yaw_bins(t, 2, bins)).flat_map(score).collect()
}

/// Searches the whole map for the pose a scan was taken at.
/// The poses tried are floating point.
fn search_map<C: Chart>(
    grid: &C,
    scan: &Scan,
    cfg: &RelocalizeConfig,
) -> Option<RelocalizeResult> {
    let ends = endpoints(scan);
    if !is_searchable(ends.len(), cfg) {
        return None;
    }
    let field = grid.distance_field(cfg.wall_threshold_fp);
    let (w, h) = (grid.cells().width(), grid.cells().height());
    let free = grid.free_mask();
    let centres = coarse_centres(&free, w, h, cfg);
    if centres.is_empty() {
        return None;
    }
    let bins = cfg.coarse_yaw_bins.max(1);
    let pi = std::f32::consts::PI;
    let score_bin = |bin: usize| -> Vec<RelocalizeResult> {
        let yaw = -pi + bin as f32 * (2.0 * pi / bins as f32);
        let offsets = turned(&ends, yaw);
        let sightings: Vec<Sighting> = centres
            .iter()
            .map(|&(i, j)| {
                let (x, y) = grid.centre(i, j);
                sight(grid, &field, &offsets, (x, y, yaw), cfg)
            })
            .collect();
        coarse_top(&sightings, cfg)
    };
    let candidates = over_headings(bins, &score_bin);
    if candidates.is_empty() {
        return None;
    }
    let ranked = rank(&candidates);
    let gaps: Vec<Vec<Gap>> = ranked
        .iter()
        .enumerate()
        .map(|(k, c)| {
            let a = pose(c.pose);
            ranked[..k]
                .iter()
                .map(|s| {
                    let b = pose(s.pose);
                    let (dx, dy) = (b.0 - a.0, b.1 - a.1);
                    Gap {
                        xy: single(dx * dx + dy * dy),
                        yaw: single(wrap_pi(b.2 - a.2).abs()),
                    }
                })
                .collect()
        })
        .collect();
    let seeds: Vec<RelocalizeResult> = pick_seeds(&gaps).iter().map(|&k| ranked[k]).collect();
    let yaws = cfg.refine_yaw_bins.max(1);
    let half = float(cfg.refine_yaw_half_rad);
    let step = if yaws == 1 { 0.0 } else { 2.0 * half / (yaws - 1) as f32 };
    let fine: Vec<Vec<Sighting>> = seeds
        .iter()
        .map(|seed| {
            let (x, y, yaw0) = pose(seed.pose);
            let cells = refine_cells(&free, w, h, grid.world_to_cell(x, y), cfg);
            let mut sightings = Vec::new();
            for k in 0..yaws {
                let yaw = yaw0 - half + k as f32 * step;
                let offsets = turned(&ends, yaw);
                for &(i, j) in &cells {
                    let (cx, cy) = grid.centre(i, j);
                    let mut seen = sight(grid, &field, &offsets, (cx, cy, yaw), cfg);
                    seen.pose.yaw = single(wrap_pi(yaw));
                    sightings.push(seen);
                }
            }
            sightings
        })
        .collect();
    let mut best = microduck::relocalize::relocalize_against_grid(&candidates, &gaps, &fine, cfg)?;
    best.pose.yaw = single(wrap_pi(float(best.pose.yaw)));
    Some(best)
}

/// The sights of an open window, and the square of the longest range. Floating point
/// all through.
fn sights(acc: &WindowAccumulator) -> (Vec<Vec<Sight>>, f32) {
    let cfg = acc.config();
    let inv = 1.0 / float(cfg.cell_m).max(1e-6);
    let max = float(cfg.max_range_m);
    let Some(rep) = acc.middle().map(pose) else {
        return (Vec::new(), max * max);
    };
    let (rs, rc) = (rep.2.sin(), rep.2.cos());
    let local = |x: f32, y: f32| {
        let (dx, dy) = (x - rep.0, y - rep.1);
        point(rc * dx + rs * dy, -rs * dx + rc * dy)
    };
    let seen = acc
        .frames()
        .iter()
        .map(|(at, scan)| {
            let at = pose(*at);
            let (s, c) = at.2.sin_cos();
            let world = |p: Point| {
                let (x, y) = (float(p.x), float(p.y));
                (at.0 + c * x - s * y, at.1 + s * x + c * y)
            };
            scan.beams
                .iter()
                .map(|b| {
                    let dx = float(b.end.x) - float(b.origin.x);
                    let dy = float(b.end.y) - float(b.origin.y);
                    let (ox, oy) = world(b.origin);
                    let (ex, ey) = world(b.end);
                    Sight {
                        length_sq: single(dx * dx + dy * dy),
                        cell: ((ex * inv).floor() as i32, (ey * inv).floor() as i32),
                        beam: Beam { origin: local(ox, oy), end: local(ex, ey) },
                    }
                })
                .collect()
        })
        .collect();
    (seen, max * max)
}

/// A mapper over a mapping session.
struct Cartographer<C> {
    session: Session<C>,
    mapper: Mapper<C>,
}

impl<C: Chart> Cartographer<C> {
    fn new(cfg: MapperConfig, session: Session<C>) -> Self {
        let mapper =
            Mapper::new(cfg, session.slam.n_submaps(), session.slam.tracked_pose());
        Cartographer { session, mapper }
    }

    fn here(&self) -> Pose {
        pose(self.session.slam.tracked_pose())
    }

    /// One tick of odometry.
    fn observe(&mut self, t_s: f32, sample: MapperSample, notes: &mut Vec<Note>) {
        let odom = pose(sample.odom);
        self.session.observe_odom(odom);
        let mut ages: Vec<_> = self
            .mapper
            .odom_window()
            .iter()
            .map(|m| single(t_s - float(m.t_s)))
            .collect();
        ages.push(single(0.0));
        self.mapper.mark(single(t_s), sample.odom, &ages);
        let displaced = self.mapper.odom_window().first().map(|first| {
            let was = pose(first.odom);
            let (dx, dy) = (odom.0 - was.0, odom.1 - was.1);
            Gap {
                xy: single((dx * dx + dy * dy).sqrt()),
                yaw: single(wrap_pi(odom.2 - was.2).abs()),
            }
        });
        let open_for = self.mapper.window_opened().map(|t0| single(t_s - float(t0)));
        let stand = self.mapper.observe(sample, displaced, open_for);
        if stand.flush {
            self.close_window(t_s, notes);
        }
        if stand.snapshot {
            self.mapper.keep_map(self.session.render());
        }
        let here = self.session.slam.tracked_pose();
        self.mapper.doubt(sample, here, notes);
        if self.mapper.tracking() {
            let loops = self.session.slam.n_loops();
            let before = self.here();
            self.session.tick(t_s);
            let after = self.here();
            let snapshot = self.mapper.loops_closed(
                loops,
                self.session.slam.n_loops(),
                single(after.0 - before.0),
                single(after.1 - before.1),
                single(wrap_pi(after.2 - before.2)),
                notes,
            );
            if snapshot {
                self.mapper.keep_map(self.session.render());
            }
        }
    }

    /// One frame of the range sensor, in the body frame.
    fn frame(&mut self, t_s: f32, scan: Scan) -> bool {
        let here = self.here();
        match self.mapper.frame(single(t_s), pose2(here), scan) {
            Kept::Ink(scan) => {
                self.session.integrate(here, &scan, 1);
                true
            }
            Kept::Held => true,
            Kept::Dropped => false,
        }
    }

    fn close_window(&mut self, t_s: f32, notes: &mut Vec<Note>) {
        let (seen, max_range_sq) = sights(self.mapper.open_window());
        let map = if self.mapper.tracking() { None } else { self.session.render() };
        let mut ask =
            self.mapper.absorb_window(&seen, single(max_range_sq), map.is_some(), notes);
        let Some((at, scan)) = self.mapper.last_window().map(|(p, s)| (pose(*p), s.duplicate()))
        else {
            return;
        };
        loop {
            let now = self.here();
            let event = match (ask, &map) {
                (Ask::Nothing, _) => return,
                (Ask::CheckSeed(c), Some(map)) => {
                    Event::SeedChecked { check: self.check(map, &scan, c, now), now: pose2(now) }
                }
                (Ask::CheckPending(c), Some(map)) => {
                    Event::PendingChecked { check: self.check(map, &scan, c, now) }
                }
                (Ask::Search, Some(map)) => {
                    let cfg = self.mapper.config();
                    let probe = scan.decimated(cfg.relocalize_max_beams);
                    Event::Searched {
                        result: search_map(map, &probe, &cfg.relocalize),
                        now: pose2(now),
                    }
                }
                (Ask::Watch, _) => {
                    let cfg = self.mapper.config();
                    let wd = cfg.watchdog;
                    let Some(grid) = self.mapper.stand_grid() else {
                        return;
                    };
                    let found = agreement(
                        grid,
                        &scan,
                        at,
                        float(wd.clamp_m),
                        wd.wall_threshold_fp,
                        wd.observed_fp,
                    );
                    Event::Watched { check: checked(&cfg, at, found), beams: scan.n_valid() }
                }
                (Ask::Ink, _) => {
                    let passes = self.mapper.config().window_ink_passes.max(1);
                    self.session.integrate(at, &scan, passes);
                    return;
                }
                (Ask::Resume(p), _) => {
                    let passes = self.mapper.config().window_ink_passes.max(1);
                    self.session.slam.set_tracked(p);
                    self.session.tick(t_s);
                    self.session.integrate(pose(p), &scan, passes);
                    return;
                }
                (_, None) => return,
            };
            ask = self.mapper.answer(event, notes);
        }
    }

    fn check(&self, map: &C, scan: &Scan, c: Candidate, now: Pose) -> Check {
        let cfg = self.mapper.config();
        let wd = cfg.watchdog;
        let implied = compose(pose(c.pose), between(pose(c.then), now));
        let found = agreement(
            map,
            scan,
            implied,
            float(wd.clamp_m),
            wd.wall_threshold_fp,
            wd.observed_fp,
        );
        checked(&cfg, implied, found)
    }
}

fn checked(cfg: &MapperConfig, at: Pose, found: PoseAgreement) -> Check {
    let beams = found.n_beams as f32;
    Check {
        at: pose2(at),
        agreement: found,
        observed: single(found.n_observed as f32),
        weak_floor: single(float(cfg.watchdog.min_observed_fraction) * beams),
        strong_floor: single(float(cfg.relocalize_confirm_min_fraction) * beams),
    }
}

const UNIT: f32 = 1.0 / 16_777_216.0;

/// A uniform number in `[0, 1)`.
/// Floating point all through.
fn uniform(rng: &mut Rng) -> f32 {
    rng.uniform() as f32 * UNIT
}

/// A normal number of this spread.
/// Floating point all through.
fn normal(rng: &mut Rng, sigma: f32) -> f32 {
    match rng.normal_draw() {
        NormalDraw::Spare(z) => float(z) * sigma,
        NormalDraw::Fresh { radius, angle } => {
            let r = (1.0 - f64::from(radius as f32 * UNIT)).max(f64::MIN_POSITIVE);
            let theta = std::f64::consts::TAU * f64::from(angle as f32 * UNIT);
            let mag = (-2.0 * r.ln()).sqrt();
            rng.keep_spare(single((mag * theta.sin()) as f32));
            (mag * theta.cos()) as f32 * sigma
        }
    }
}

fn heading(yaw: u32) -> f32 {
    yaw as f32 * UNIT * 2.0 * std::f32::consts::PI - std::f32::consts::PI
}

/// A particle filter over a map.
struct Cloud {
    mcl: Localizer,
    cfg: MclConfig,
}

impl Cloud {
    fn new(cfg: MclConfig, seed: u64) -> Self {
        Cloud { mcl: Localizer::new(cfg, seed), cfg }
    }

    fn particles(&self) -> Vec<Pose> {
        self.mcl.particles().iter().map(|p| pose(*p)).collect()
    }

    fn each(&self) -> f32 {
        1.0 / self.mcl.n_particles() as f32
    }

    /// Spreads the cloud over the free cells of a map.
    fn seed_uniform<C: Chart>(&mut self, grid: &C) {
        let (w, h) = (grid.cells().width(), grid.cells().height());
        let whole = Patch { i_from: 0, i_to: h, j_from: 0, j_to: w, stride: 1 };
        let free: Vec<(f32, f32)> = free_cells(&grid.free_mask(), w, h, whole)
            .into_iter()
            .map(|(i, j)| grid.centre(i, j))
            .collect();
        let cell = grid.cell();
        let draws = self.mcl.draw_uniform(free.len());
        let poses = draws
            .iter()
            .map(|draw| match *draw {
                Draw::Nowhere { yaw } => pose2((0.0, 0.0, heading(yaw))),
                Draw::InCell { cell: k, dx, dy, yaw } => pose2((
                    free[k].0 + (dx as f32 * UNIT - 0.5) * cell,
                    free[k].1 + (dy as f32 * UNIT - 0.5) * cell,
                    heading(yaw),
                )),
            })
            .collect();
        let each = self.each();
        self.mcl.seed_uniform(poses, single(each));
    }

    fn near(&mut self, seeds: &[Pose], n: usize, spread_xy: f32, spread_yaw: f32) -> Vec<Pose> {
        let rng = self.mcl.rng_mut();
        (0..n)
            .map(|i| {
                let s = seeds[i % seeds.len()];
                let x = s.0 + normal(rng, spread_xy);
                let y = s.1 + normal(rng, spread_xy);
                (x, y, wrap_pi(s.2 + normal(rng, spread_yaw)))
            })
            .collect()
    }

    /// Gathers the cloud around some seeds.
    fn seed_around(&mut self, seeds: &[Pose], spread_xy: f32, spread_yaw: f32) {
        if seeds.is_empty() {
            return;
        }
        let n = self.mcl.n_particles();
        let poses = self.near(seeds, n, spread_xy, spread_yaw);
        let each = self.each();
        self.mcl.seed_around(
            seeds.len(),
            poses.into_iter().map(pose2).collect(),
            single(each),
        );
    }

    /// Spreads the cloud, and gathers a share of it around some seeds.
    fn seed_mixed<C: Chart>(
        &mut self,
        seeds: &[Pose],
        share: f32,
        grid: &C,
        spread_xy: f32,
        spread_yaw: f32,
    ) {
        self.seed_uniform(grid);
        let n = (self.mcl.n_particles() as f32 * share.clamp(0.0, 1.0)) as usize;
        if seeds.is_empty() || n == 0 {
            return;
        }
        let poses: Vec<_> =
            self.near(seeds, n, spread_xy, spread_yaw).into_iter().map(pose2).collect();
        self.mcl.seed_mixed(&poses);
    }

    /// Moves the cloud along with the body.
    /// Floating point all through.
    fn predict(&mut self, dx: f32, dy: f32, dyaw: f32) {
        let cfg = &self.cfg;
        let trans = (dx * dx + dy * dy).sqrt();
        let rot = dyaw.abs();
        let sigma_xy = float(cfg.sigma_xy_per_m) * trans
            + float(cfg.sigma_xy_per_rad) * rot
            + float(cfg.jitter_xy_m);
        let sigma_yaw = float(cfg.sigma_yaw_per_m) * trans
            + float(cfg.sigma_yaw_per_rad) * rot
            + float(cfg.jitter_yaw_rad);
        let (sigma_xy, sigma_yaw) = (sigma_xy.max(1e-6), sigma_yaw.max(1e-6));
        let before = self.particles();
        let rng = self.mcl.rng_mut();
        let poses = before
            .into_iter()
            .map(|p| {
                let (s, c) = (p.2.sin(), p.2.cos());
                let x = p.0 + (c * dx - s * dy + normal(rng, sigma_xy));
                let y = p.1 + (s * dx + c * dy + normal(rng, sigma_xy));
                pose2((x, y, wrap_pi(p.2 + dyaw + normal(rng, sigma_yaw))))
            })
            .collect();
        self.mcl.predict(poses);
    }

    /// Takes in a scan.
    /// The likelihoods are floating point.
    fn update<C: Chart>(&mut self, grid: &C, scan: &Scan) {
        let beams = endpoints(scan);
        let mut ask = self.mcl.begin_update(beams.len());
        if matches!(ask, UpdateAsk::Done) {
            return;
        }
        let field = grid.distance_field(self.cfg.wall_threshold_fp);
        loop {
            let event = match &ask {
                UpdateAsk::Done => return,
                UpdateAsk::Weigh => self.weighed(grid, &field, &beams),
                UpdateAsk::Score { at } => {
                    let best = self.residuals(grid, &field, &beams, self.particles()[*at]);
                    let mean = best.iter().sum::<f32>() / best.len() as f32;
                    UpdateEvent::Scored { mean: single(mean) }
                }
                UpdateAsk::Measure => self.measured(),
                UpdateAsk::Sum => self.summed(),
                UpdateAsk::Spin { cum, first } => self.spun(cum, *first),
                UpdateAsk::Inject => self.room(grid),
                UpdateAsk::Place { drawn } => UpdateEvent::Placed {
                    poses: drawn
                        .iter()
                        .map(|d| {
                            let (x, y) = grid.centre(d.cell.0, d.cell.1);
                            pose2((x, y, heading(d.yaw)))
                        })
                        .collect(),
                },
                UpdateAsk::Gather => {
                    let anchor = self.anchor();
                    let (place, turn) = self.shares(anchor);
                    UpdateEvent::Gathered {
                        anchor: pose2(anchor),
                        in_place: single(place),
                        in_heading: single(turn),
                    }
                }
            };
            ask = self.mcl.step_update(ask, event);
        }
    }

    /// How far from a wall each beam ends, from a pose.
    /// The poses are floating point.
    fn residuals<C: Chart>(
        &self,
        grid: &C,
        field: &[f32],
        beams: &[(f32, f32)],
        at: Pose,
    ) -> Vec<f32> {
        let clamp = float(self.cfg.beam_clamp_m);
        let (s, c) = at.2.sin_cos();
        beams
            .iter()
            .map(|&(bx, by)| {
                let (ex, ey) = (c * bx - s * by, s * bx + c * by);
                let end = grid.world_to_cell(at.0 + ex, at.1 + ey);
                let mid = grid.world_to_cell(at.0 + 0.5 * ex, at.1 + 0.5 * ey);
                match fate_of(grid.cells(), end, mid, self.cfg.see_through_fp) {
                    Fate::Lands(k) => field[k].min(clamp),
                    Fate::Off | Fate::Through => clamp,
                }
            })
            .collect()
    }

    /// Floating point all through.
    fn weighed<C: Chart>(
        &self,
        grid: &C,
        field: &[f32],
        beams: &[(f32, f32)],
    ) -> UpdateEvent {
        let sigma = float(self.cfg.beam_sigma_m);
        let two_sigma_sq = 2.0 * sigma * sigma;
        let log_w: Vec<f32> = self
            .particles()
            .iter()
            .map(|p| {
                if beams.is_empty() {
                    -1e6
                } else {
                    let off = self.residuals(grid, field, beams, *p);
                    off.iter().map(|d| -(d * d) / two_sigma_sq).sum()
                }
            })
            .collect();
        let temper = float(self.cfg.likelihood_temper).max(1e-6);
        let most = log_w.iter().cloned().fold(f32::NEG_INFINITY, f32::max);
        let raw: Vec<f32> = self
            .mcl
            .weights()
            .iter()
            .zip(&log_w)
            .map(|(w, lw)| float(*w) * ((lw - most) * temper).exp())
            .collect();
        let sum: f32 = raw.iter().sum();
        UpdateEvent::Weighed {
            normalised: raw.iter().map(|w| single(w / sum)).collect(),
            sum: single(sum),
            each: single(self.each()),
        }
    }

    /// Floating point all through.
    fn measured(&self) -> UpdateEvent {
        let squares: f32 = self.mcl.weights().iter().map(|w| float(*w) * float(*w)).sum();
        let least = float(self.cfg.resample_ess_frac) * self.mcl.n_particles() as f32;
        UpdateEvent::Measured {
            effective: single(1.0 / squares.max(1e-12)),
            least: single(least),
        }
    }

    /// Floating point all through.
    fn summed(&self) -> UpdateEvent {
        let mut acc = 0.0f32;
        let cum = self
            .mcl
            .weights()
            .iter()
            .map(|w| {
                acc += float(*w);
                single(acc)
            })
            .collect();
        UpdateEvent::Summed { cum, each: single(self.each()) }
    }

    /// Floating point all through.
    fn spun(&self, cum: &[Single], first: u32) -> UpdateEvent {
        let n = self.mcl.n_particles();
        let step = cum.last().map_or(0.0, |acc| float(*acc)) / n as f32;
        let from = first as f32 * UNIT * step;
        UpdateEvent::Spun {
            us: (0..n).map(|i| single(from + i as f32 * step)).collect(),
            each: single(self.each()),
        }
    }

    /// The share to draw anew is floating point.
    fn room<C: Chart>(&self, grid: &C) -> UpdateEvent {
        let n = self.mcl.n_particles() as f32;
        let count = (n * float(self.cfg.random_inject_frac).clamp(0.0, 1.0)) as usize;
        let (w, h) = (grid.cells().width(), grid.cells().height());
        let count = if w == 0 || h == 0 { 0 } else { count };
        UpdateEvent::Room { free: grid.free_mask(), w, h, count }
    }

    fn offs(&self, x: f32, y: f32) -> Vec<Single> {
        self.particles()
            .iter()
            .map(|p| single((p.0 - x) * (p.0 - x) + (p.1 - y) * (p.1 - y)))
            .collect()
    }

    fn turns(&self, yaw: f32) -> Vec<Single> {
        self.particles().iter().map(|p| single(wrap_pi(p.2 - yaw).abs())).collect()
    }

    /// Floating point all through.
    fn mean_of(&self, members: &[usize], otherwise: Pose) -> Pose {
        if members.is_empty() {
            return otherwise;
        }
        let cloud = self.particles();
        let (mut x, mut y, mut s, mut c) = (0.0f32, 0.0f32, 0.0f32, 0.0f32);
        for &k in members {
            x += cloud[k].0;
            y += cloud[k].1;
            s += cloud[k].2.sin();
            c += cloud[k].2.cos();
        }
        let n = members.len() as f32;
        (x / n, y / n, s.atan2(c))
    }

    /// The anchor of the densest cluster: the mean around the densest bin of places.
    fn anchor(&self) -> Pose {
        let radius = float(self.cfg.locked_xy_std_m);
        let (x, y, _) = self.centre_of_bins(radius * 1.5, None);
        let level: Vec<_> = self.mcl.particles().iter().map(|_| single(0.0)).collect();
        let members =
            cluster_members(&self.offs(x, y), &level, single(radius * radius), single(1.0));
        self.mean_of(&members, (x, y, 0.0))
    }

    fn centre_of_bins(&self, bin: f32, yaw_bin: Option<f32>) -> Pose {
        let pi = std::f32::consts::PI;
        let inv = 1.0 / bin.max(1e-6);
        let bins: Vec<Bin> = self
            .particles()
            .iter()
            .map(|p| {
                let k = yaw_bin.map_or(0, |b| ((p.2 + pi) * (1.0 / b.max(1e-6))).floor() as i32);
                ((p.0 * inv).floor() as i32, (p.1 * inv).floor() as i32, k)
            })
            .collect();
        match densest_bin(&bins) {
            Some((i, j, k)) => (
                (i as f32 + 0.5) * bin,
                (j as f32 + 0.5) * bin,
                yaw_bin.map_or(0.0, |b| (k as f32 + 0.5) * b - pi),
            ),
            None => (0.0, 0.0, 0.0),
        }
    }

    /// The middle of the densest bin of places and headings.
    fn densest_bin_center(&self, cell_m: f32, yaw_bin_rad: f32) -> Pose {
        self.centre_of_bins(cell_m, Some(yaw_bin_rad))
    }

    /// The share of the cloud within a radius of a place.
    fn fraction_within(&self, x: f32, y: f32, radius: f32) -> f32 {
        let n = self.mcl.n_particles() as f32;
        count_within(&self.offs(x, y), single(radius * radius)) as f32 / n
    }

    /// The share of the cloud within a turn of a heading.
    fn fraction_within_yaw(&self, yaw: f32, turn: f32) -> f32 {
        let n = self.mcl.n_particles() as f32;
        count_within(&self.turns(yaw), single(turn)) as f32 / n
    }

    /// The mean of the particles around a pose, or the pose when there are none.
    fn cluster_mean(&self, at: Pose, radius: f32, turn: f32) -> Pose {
        let members = cluster_members(
            &self.offs(at.0, at.1),
            &self.turns(at.2),
            single(radius * radius),
            single(turn),
        );
        self.mean_of(&members, at)
    }

    fn shares(&self, anchor: Pose) -> (f32, f32) {
        (
            self.fraction_within(anchor.0, anchor.1, float(self.cfg.locked_xy_std_m)),
            self.fraction_within_yaw(anchor.2, float(self.cfg.locked_yaw_std_rad)),
        )
    }

    fn current_anchor(&self) -> Pose {
        match self.mcl.cluster_anchor() {
            Some(a) => pose(a),
            None => self.anchor(),
        }
    }

    fn dominant_cluster_frac(&self) -> f32 {
        self.shares(self.current_anchor()).0
    }

    fn dominant_yaw_frac(&self) -> f32 {
        self.shares(self.current_anchor()).1
    }

    /// The mean of the densest cluster, which is what a lock commits to.
    fn dominant_cluster_mean(&self) -> Pose {
        self.cluster_mean(
            self.current_anchor(),
            float(self.cfg.locked_xy_std_m),
            float(self.cfg.locked_yaw_std_rad),
        )
    }

    /// The cloud's mean by weight.
    /// Floating point all through.
    fn weighted_mean(&self) -> Pose {
        let (mut x, mut y, mut s, mut c, mut sum) = (0.0f32, 0.0f32, 0.0f32, 0.0f32, 0.0f32);
        for (p, w) in self.particles().iter().zip(self.mcl.weights()) {
            let w = float(*w);
            x += w * p.0;
            y += w * p.1;
            s += w * p.2.sin();
            c += w * p.2.cos();
            sum += w;
        }
        if sum <= 0.0 {
            (0.0, 0.0, 0.0)
        } else {
            (x / sum, y / sum, s.atan2(c))
        }
    }

    /// How far the cloud is spread.
    /// Floating point all through.
    fn position_std(&self) -> f32 {
        let cloud = self.particles();
        let n = cloud.len() as f32;
        if n < 2.0 {
            return 0.0;
        }
        let mx = cloud.iter().map(|p| p.0).sum::<f32>() / n;
        let my = cloud.iter().map(|p| p.1).sum::<f32>() / n;
        let var: f32 = cloud.iter().map(|p| (p.0 - mx).powi(2) + (p.1 - my).powi(2)).sum();
        (var / n).sqrt()
    }

    /// How far its headings are spread.
    /// Floating point all through.
    fn yaw_std(&self) -> f32 {
        let cloud = self.particles();
        let n = cloud.len() as f32;
        if n < 2.0 {
            return 0.0;
        }
        let s: f32 = cloud.iter().map(|p| p.2.sin()).sum();
        let c: f32 = cloud.iter().map(|p| p.2.cos()).sum();
        let r = (s * s + c * c).sqrt() / n;
        if r >= 1.0 {
            0.0
        } else {
            (-2.0 * r.ln()).sqrt()
        }
    }
}

/// A grid over the ground for these runs.
struct Ground {
    grid: OccupancyGrid,
    x: (f32, f32),
    y: (f32, f32),
    cell: f32,
}

const HIT: i16 = 85;
const MISS: i16 = -40;
const RANGE: LogRange = LogRange { lo: -400, hi: 600 };

impl Ground {
    fn new(x: (f32, f32), y: (f32, f32), cell: f32) -> Self {
        let (w, h) = Ground::extent(x, y, cell);
        Ground { grid: OccupancyGrid::blank(w, h), x, y, cell }
    }

    /// The cells a line crosses, first and last included.
    fn line(&self, from: (f32, f32), to: (f32, f32)) -> Vec<(i32, i32)> {
        let (mut i, mut j) = self.world_to_cell(from.0, from.1);
        let (i1, j1) = self.world_to_cell(to.0, to.1);
        let (di, dj) = ((i1 - i).abs(), (j1 - j).abs());
        let (si, sj) = ((i1 - i).signum(), (j1 - j).signum());
        let mut err = dj - di;
        let mut cells = vec![(i, j)];
        while (i, j) != (i1, j1) {
            let e2 = 2 * err;
            if e2 > -di {
                err -= di;
                j += sj;
            }
            if e2 < dj {
                err += dj;
                i += si;
            }
            cells.push((i, j));
        }
        cells
    }

    fn holds(&self, i: i32, j: i32) -> bool {
        i >= 0 && j >= 0 && (i as usize) < self.grid.height() && (j as usize) < self.grid.width()
    }

    fn log(&self, x: f32, y: f32) -> i16 {
        let (i, j) = self.world_to_idx(x, y).expect("on the grid");
        self.grid.log_at(i, j)
    }

    /// How far it is to the first wall.
    fn cast_ray(&self, x: f32, y: f32, yaw: f32, max: f32) -> f32 {
        let step = self.cell * 0.25;
        let mut r = 0.0f32;
        while r < max {
            match self.world_to_idx(x + r * yaw.cos(), y + r * yaw.sin()) {
                Some((i, j)) => {
                    if self.grid.log_at(i, j) > 0 {
                        return r;
                    }
                }
                None => return max,
            }
            r += step;
        }
        max
    }
}

impl Chart for Ground {
    fn cells(&self) -> &OccupancyGrid {
        &self.grid
    }
    fn x_range(&self) -> (f32, f32) {
        self.x
    }
    fn y_range(&self) -> (f32, f32) {
        self.y
    }
    fn cell(&self) -> f32 {
        self.cell
    }
    fn log_range(&self) -> LogRange {
        RANGE
    }
    fn is_known_free(&self, i: usize, j: usize) -> bool {
        self.grid.log_at(i, j) < -50
    }
    fn distance_field(&self, threshold_fp: i16) -> Vec<f32> {
        let (w, h) = (self.grid.width(), self.grid.height());
        let far = 1.0e6f32;
        let mut field = vec![far; w * h];
        for i in 0..h {
            for j in 0..w {
                if self.grid.log_at(i, j) > threshold_fp {
                    field[i * w + j] = 0.0;
                }
            }
        }
        let near = self.cell;
        let across = self.cell * std::f32::consts::SQRT_2;
        let ease = |field: &mut Vec<f32>, k: usize, from: usize, d: f32| {
            if field[from] + d < field[k] {
                field[k] = field[from] + d;
            }
        };
        for i in 0..h {
            for j in 0..w {
                let k = i * w + j;
                if j > 0 {
                    ease(&mut field, k, k - 1, near);
                }
                if i > 0 {
                    ease(&mut field, k, k - w, near);
                    if j > 0 {
                        ease(&mut field, k, k - w - 1, across);
                    }
                    if j + 1 < w {
                        ease(&mut field, k, k - w + 1, across);
                    }
                }
            }
        }
        for i in (0..h).rev() {
            for j in (0..w).rev() {
                let k = i * w + j;
                if j + 1 < w {
                    ease(&mut field, k, k + 1, near);
                }
                if i + 1 < h {
                    ease(&mut field, k, k + w, near);
                    if j > 0 {
                        ease(&mut field, k, k + w - 1, across);
                    }
                    if j + 1 < w {
                        ease(&mut field, k, k + w + 1, across);
                    }
                }
            }
        }
        field
    }
    fn integrate_ray(&mut self, from: (f32, f32), to: (f32, f32), hit: bool) -> bool {
        let cells = self.line(from, to);
        let mut touched = false;
        for (k, &(i, j)) in cells.iter().enumerate() {
            if !self.holds(i, j) {
                continue;
            }
            touched = true;
            let v = if hit && k + 1 == cells.len() { HIT } else { MISS };
            self.grid.add_log_odds_at(i as usize, j as usize, v, RANGE);
        }
        touched
    }
    fn blank(&self) -> Self {
        Ground::new(self.x, self.y, self.cell)
    }
    fn extent(x: (f32, f32), y: (f32, f32), cell: f32) -> (usize, usize) {
        let n = |r: (f32, f32)| ((r.1 - r.0) / cell).ceil().max(1.0) as usize;
        (n(x), n(y))
    }
    fn of_cells(grid: OccupancyGrid, x: (f32, f32), y: (f32, f32), cell: f32) -> Self {
        Ground { grid, x, y, cell }
    }
}

fn laps(ground: &mut Ground, rounds: usize, half: f32, divider: bool) {
    let n = 200;
    for _ in 0..rounds {
        for i in 0..n {
            let t = -half + 2.0 * half * (i as f32 / (n - 1) as f32);
            ground.integrate_ray((0.0, 0.0), (t, half), true);
            ground.integrate_ray((0.0, 0.0), (t, -half), true);
            ground.integrate_ray((0.0, 0.0), (half, t), true);
            ground.integrate_ray((0.0, 0.0), (-half, t), true);
        }
        if divider {
            for i in 0..n / 2 {
                let t = half * (i as f32 / ((n / 2) as f32));
                ground.integrate_ray((0.0, 0.0), (t, 0.5), true);
            }
        }
    }
}

fn scan_of(angles: &[f32], ranges: &[f32]) -> Scan {
    polar(angles, ranges, (0.0, 0.0), 0.0)
}

fn small_ground() -> Ground {
    Ground::new((-2.0, 2.0), (-2.0, 2.0), 0.05)
}

// Poses

#[test]
fn between_then_compose_is_identity() {
    let a = (1.0, -0.5, 0.6);
    let b = (2.5, 0.3, 0.2);
    let rel = between(a, b);
    let recovered = compose(a, rel);
    assert!((recovered.0 - b.0).abs() < 1e-5);
    assert!((recovered.1 - b.1).abs() < 1e-5);
    assert!((recovered.2 - b.2).abs() < 1e-5);
}

#[test]
fn world_to_local_is_inverse_of_compose() {
    let anchor = (1.0_f32, -0.5, 0.6);
    let body = (2.5_f32, 0.3, 0.2);
    let local = world_to_local(anchor, body);
    let (ax, ay, ayaw) = anchor;
    let ca = ayaw.cos();
    let sa = ayaw.sin();
    let wx = ax + ca * local.0 - sa * local.1;
    let wy = ay + sa * local.0 + ca * local.1;
    let wyaw = wrap_pi(ayaw + local.2);
    assert!((wx - body.0).abs() < 1e-5);
    assert!((wy - body.1).abs() < 1e-5);
    assert!((wyaw - body.2).abs() < 1e-5);
}

// Submaps

#[test]
fn integrating_a_perpendicular_wall_lights_up_the_right_cell() {
    let mut s = Submap::new_at(pose2((0.0, 0.0, 0.0)), small_ground());
    ink(&mut s, (0.0, 0.0, 0.0), &scan_of(&[0.0], &[1.0]), 1);
    assert!(s.grid().log(1.0, 0.0) > 0, "wall cell wasn't marked occupied");
    assert!(s.grid().log(0.5, 0.0) < 0, "free cell wasn't marked free");
}

#[test]
fn beams_start_at_the_sensor_not_the_body() {
    let mut s = Submap::new_at(pose2((0.0, 0.0, 0.0)), small_ground());
    let sc = polar(&[0.0], &[0.9], (0.1, 0.0), 0.0);
    for _ in 0..3 {
        ink(&mut s, (0.0, 0.0, 0.0), &sc, 1);
    }
    assert!(s.grid().log(1.0, 0.0) > 0, "wall must land at sensor + range");
    assert!(s.grid().log(0.85, 0.0) < 0, "body-origin endpoint must be free space");
}

#[test]
fn integrating_at_offset_anchor_uses_local_frame() {
    let mut s = Submap::new_at(pose2((5.0, 5.0, 0.0)), small_ground());
    ink(&mut s, (5.0, 5.0, 0.0), &scan_of(&[0.0], &[1.0]), 1);
    assert!(s.grid().log(1.0, 0.0) > 0);
}

// The global map

#[test]
fn render_two_overlapping_submaps_combines_their_marks() {
    let ground = || Ground::new((-1.0, 1.0), (-1.0, 1.0), 0.05);
    let mut a = Submap::new_at(pose2((0.0, 0.0, 0.0)), ground());
    for _ in 0..5 {
        ink(&mut a, (0.0, 0.0, 0.0), &scan_of(&[0.0], &[0.5]), 1);
    }
    let mut b = Submap::new_at(pose2((0.5, 0.0, 0.0)), ground());
    for _ in 0..5 {
        ink(&mut b, (0.5, 0.0, 0.0), &scan_of(&[0.0], &[0.05]), 1);
    }
    let g = render(&[&a, &b], &GlobalRenderConfig::default()).unwrap();
    assert!(g.log(0.5, 0.0) > 0, "world (0.5, 0) wasn't marked occupied");
}

#[test]
fn rotated_submap_wall_renders_without_holes() {
    let yaw = 30.0_f32.to_radians();
    let mut s = Submap::new_at(pose2((0.0, 0.0, yaw)), small_ground());
    for _ in 0..8 {
        let mut y = -1.0_f32;
        while y <= 1.0 {
            let a = y.atan2(1.0);
            let r = (1.0 + y * y).sqrt();
            ink(&mut s, (0.0, 0.0, yaw), &scan_of(&[a], &[r]), 1);
            y += 0.02;
        }
    }
    let g = render(&[&s], &GlobalRenderConfig::default()).unwrap();
    let (ca, sa) = (yaw.cos(), yaw.sin());
    let mut holes = 0usize;
    let mut samples = 0usize;
    let mut y = -0.9_f32;
    while y <= 0.9 {
        let xw = ca * 1.0 - sa * y;
        let yw = sa * 1.0 + ca * y;
        let (i, j) = g.world_to_idx(xw, yw).expect("wall inside bbox");
        let mut hit = false;
        for di in -1i32..=1 {
            for dj in -1i32..=1 {
                let (ii, jj) = (i as i32 + di, j as i32 + dj);
                if g.holds(ii, jj) && g.grid.log_at(ii as usize, jj as usize) > 0 {
                    hit = true;
                }
            }
        }
        if !hit {
            holes += 1;
        }
        samples += 1;
        y += 0.05;
    }
    assert_eq!(holes, 0, "rotated wall rendered with {holes}/{samples} holes");
}

#[test]
fn nothing_renders_to_nothing() {
    let none: Vec<&Submap<Ground>> = Vec::new();
    assert!(render(&none, &GlobalRenderConfig::default()).is_none());
}

// Scan matching and loops

#[test]
fn residual_excludes_prior_penalty() {
    let mut grid = Ground::new((-2.5, 2.5), (-2.5, 2.5), 0.05);
    laps(&mut grid, 6, 2.0, true);
    let truth = (0.4_f32, -0.3_f32, 0.2_f32);
    let mut a = Vec::new();
    let mut r = Vec::new();
    for k in 0..64 {
        let aa = -std::f32::consts::PI + (k as f32) * (2.0 * std::f32::consts::PI / 64.0);
        a.push(aa);
        r.push(grid.cast_ray(truth.0, truth.1, truth.2 + aa, 4.0));
    }
    let scan = polar(&a, &r, (0.0, 0.0), 1e-6);
    let drifted = (truth.0 + 0.15, truth.1 - 0.12, truth.2 + 0.10);
    let cfg = ScanMatchConfig::default();
    let res = match_to(&grid, &scan, drifted, Some(drifted), &cfg);
    let at = pose(res.pose);
    let (dx, dy) = (at.0 - truth.0, at.1 - truth.1);
    assert!((dx * dx + dy * dy).sqrt() < 0.10, "matcher failed to recover truth: {at:?}");
    assert!(float(res.residual_m) < 0.06, "residual contaminated: {}", float(res.residual_m));
    assert!(res.n_beams_valid >= res.n_beams_used);
    assert!(res.n_beams_used > 16);
}

fn painted_room(ground: Ground) -> Submap<Ground> {
    let mut a = Submap::new_at(pose2((0.0, 0.0, 0.0)), ground);
    let n = 160;
    let mut walls: Vec<(f32, f32)> = Vec::new();
    for i in 0..n {
        let t = -2.0 + 4.0 * (i as f32 / (n - 1) as f32);
        walls.push((t, 2.0));
        walls.push((t, -2.0));
        walls.push((2.0, t));
        walls.push((-2.0, t));
    }
    for i in 0..n / 2 {
        let t = 2.0 * (i as f32 / ((n / 2) as f32));
        walls.push((t, 0.5));
    }
    for &(ox, oy) in &[(0.0_f32, 0.0_f32), (0.5, -0.5), (-0.5, 0.8), (0.3, 0.2)] {
        for _ in 0..4 {
            for &(wx, wy) in &walls {
                let (dx, dy) = (wx - ox, wy - oy);
                let beam = polar(
                    &[dy.atan2(dx)],
                    &[(dx * dx + dy * dy).sqrt()],
                    (0.0, 0.0),
                    1e-6,
                );
                ink(&mut a, (ox, oy, 0.0), &beam, 1);
            }
        }
    }
    a
}

fn full_turn(ground: &Ground, at: Pose) -> Scan {
    let mut angles = Vec::new();
    let mut ranges = Vec::new();
    for k in 0..64 {
        let aa = -std::f32::consts::PI + (k as f32) * (2.0 * std::f32::consts::PI / 64.0);
        angles.push(aa);
        ranges.push(ground.cast_ray(at.0, at.1, at.2 + aa, 4.0));
    }
    polar(&angles, &ranges, (0.0, 0.0), 1e-6)
}

#[test]
fn loop_closure_recovers_drift_beyond_gn_basin() {
    let ground = || Ground::new((-2.5, 2.5), (-2.5, 2.5), 0.05);
    let a = painted_room(ground());
    let truth = (0.3_f32, 0.2_f32, 0.0_f32);
    let drift = (0.4_f32, 0.0_f32);
    let anchor = (truth.0 + drift.0, truth.1 + drift.1, truth.2);
    let mut b = Submap::new_at(pose2(anchor), ground());
    for &(dx, dy, dyaw) in &[
        (0.0_f32, 0.0_f32, 0.0_f32),
        (0.06, 0.04, 0.05),
        (-0.05, 0.06, -0.04),
    ] {
        let real = (truth.0 + dx, truth.1 + dy, truth.2 + dyaw);
        let filed = (real.0 + drift.0, real.1 + drift.1, real.2);
        ink(&mut b, filed, &full_turn(a.grid(), real), 1);
    }
    let far1 = Submap::new_at(pose2((50.0, 0.0, 0.0)), ground());
    let far2 = Submap::new_at(pose2((60.0, 0.0, 0.0)), ground());
    let submaps = vec![a, far1, far2, b];
    let cfg = LoopCloserConfig {
        min_witness_beams: 32,
        max_correction_per_submap_m: single(0.15),
        ..LoopCloserConfig::default()
    };
    let loops = find_loops(&submaps, 3, &cfg);
    assert_eq!(loops.len(), 1, "expected exactly one closure, got {loops:?}");
    let lc = &loops[0];
    assert_eq!((lc.from_idx, lc.to_idx), (0, 3));
    let (mx, my, myaw) = pose(lc.measurement);
    let err = ((mx - truth.0).powi(2) + (my - truth.1).powi(2)).sqrt();
    assert!(err < 0.10, "closure measurement ({mx:.2},{my:.2}) is {err:.2} m off truth");
    assert!(myaw.abs() < 0.12, "closure yaw {:.1} degrees off truth", myaw.to_degrees());
    assert!(float(lc.residual_m) < 0.06, "residual {:.3}", float(lc.residual_m));
}

#[test]
fn agreeing_closure_is_skipped() {
    let ground = || Ground::new((-2.5, 2.5), (-2.5, 2.5), 0.05);
    let a = painted_room(ground());
    let at = (0.3_f32, 0.2_f32, 0.0_f32);
    let mut b = Submap::new_at(pose2(at), ground());
    let scan = full_turn(a.grid(), at);
    ink(&mut b, at, &scan, 1);
    let far1 = Submap::new_at(pose2((50.0, 0.0, 0.0)), ground());
    let far2 = Submap::new_at(pose2((60.0, 0.0, 0.0)), ground());
    let submaps = vec![a, far1, far2, b];
    let cfg = LoopCloserConfig { min_witness_beams: 32, ..LoopCloserConfig::default() };
    let loops = find_loops(&submaps, 3, &cfg);
    assert!(loops.is_empty(), "agreeing closure must be skipped, got {loops:?}");
}

// Finding the robot again

#[test]
fn relocalize_finds_known_pose() {
    let mut grid = Ground::new((-2.5, 2.5), (-2.5, 2.5), 0.05);
    laps(&mut grid, 4, 2.0, false);
    for _ in 0..4 {
        for i in 0..100 {
            let t = 2.0 * (i as f32 / 100.0);
            grid.integrate_ray((0.0, 0.0), (t, 0.5), true);
        }
    }
    let truth = (0.5_f32, -0.5_f32, 0.0_f32);
    let n_beams = 36;
    let mut angles = Vec::new();
    let mut ranges = Vec::new();
    for k in 0..n_beams {
        let a = -std::f32::consts::FRAC_PI_2
            + (k as f32 / (n_beams - 1) as f32) * std::f32::consts::PI;
        let r = grid.cast_ray(truth.0, truth.1, truth.2 + a, 4.0);
        if r > 0.0 {
            angles.push(a);
            ranges.push(r);
        }
    }
    let scan = polar(&angles, &ranges, (0.0, 0.0), 1e-6);
    let cfg = RelocalizeConfig::default();
    let res = search_map(&grid, &scan, &cfg).expect("relocalize returns a candidate");
    let at = pose(res.pose);
    assert!(
        res.accepted,
        "expected accepted, got {:.3} m over {} at {at:?}",
        float(res.mean_residual_m),
        res.n_beams_used
    );
    let (dx, dy) = (at.0 - truth.0, at.1 - truth.1);
    let dist = (dx * dx + dy * dy).sqrt();
    assert!(dist < 0.20, "position {dist:.2} m off truth ({at:?} vs {truth:?})");
    let dyaw = (at.2 - truth.2).abs();
    assert!(dyaw < 0.20 || (2.0 * std::f32::consts::PI - dyaw) < 0.20);
}

// The particle cloud

fn walked_room() -> Ground {
    let mut g = Ground::new((-2.5, 2.5), (-2.5, 2.5), 0.05);
    let perim = 200;
    let mut walls: Vec<(f32, f32)> = Vec::new();
    for i in 0..perim {
        let t = -2.0 + 4.0 * (i as f32 / (perim - 1) as f32);
        walls.push((t, 2.0));
        walls.push((t, -2.0));
        walls.push((2.0, t));
        walls.push((-2.0, t));
    }
    for i in 0..perim / 2 {
        let t = 2.0 * (i as f32 / ((perim / 2) as f32));
        walls.push((t, 0.5));
    }
    let mut y = -1.5_f32;
    while y <= 1.5 {
        let mut x = -1.5_f32;
        while x <= 1.5 {
            for &to in &walls {
                g.integrate_ray((x, y), to, true);
            }
            x += 0.30;
        }
        y += 0.30;
    }
    g
}

fn place(cloud: &mut Cloud, at: impl Fn(usize) -> Pose) {
    let n = cloud.mcl.n_particles();
    let poses = (0..n).map(|k| pose2(at(k))).collect();
    cloud.mcl.seed_uniform(poses, single(1.0 / n as f32));
}

#[test]
fn cluster_on_bin_corner_still_measures_dominant() {
    let mut cloud = Cloud::new(MclConfig::default(), 7);
    let cx = 0.225_f32 * 4.0;
    let cy = 0.225_f32 * 7.0;
    let n = cloud.mcl.n_particles();
    place(&mut cloud, |k| {
        let t = k as f32 / n as f32 * std::f32::consts::TAU;
        (cx + 0.02 * t.cos(), cy + 0.02 * t.sin(), 0.3)
    });
    assert!(
        cloud.dominant_cluster_frac() > 0.95,
        "corner cluster frac = {}",
        cloud.dominant_cluster_frac()
    );
    let a = cloud.dominant_cluster_mean();
    let d = ((a.0 - cx).powi(2) + (a.1 - cy).powi(2)).sqrt();
    assert!(d < 0.05, "anchor {:.3} m off the cluster centre", d);
}

#[test]
fn yaw_cluster_straddling_pi_measures_dominant() {
    let mut cloud = Cloud::new(MclConfig::default(), 7);
    let n = cloud.mcl.n_particles();
    place(&mut cloud, |k| {
        let dy = 0.05 * ((k % 5) as f32 - 2.0) / 2.0;
        let yaw = if k % 2 == 0 {
            std::f32::consts::PI - 0.05 + dy
        } else {
            -std::f32::consts::PI + 0.05 + dy
        };
        let t = k as f32 / n as f32 * std::f32::consts::TAU;
        (0.02 * t.cos(), 0.02 * t.sin(), wrap_pi(yaw))
    });
    assert!(
        cloud.dominant_yaw_frac() > 0.95,
        "straddling yaw frac = {}",
        cloud.dominant_yaw_frac()
    );
}

#[test]
fn seed_uniform_lands_inside_free_space() {
    let grid = walked_room();
    let mut cloud = Cloud::new(MclConfig { n_particles: 200, ..MclConfig::default() }, 0);
    cloud.seed_uniform(&grid);
    let mut inside_free = 0usize;
    for p in cloud.particles() {
        if let Some((i, j)) = grid.world_to_idx(p.0, p.1) {
            if grid.is_known_free(i, j) {
                inside_free += 1;
            }
        }
    }
    let n = cloud.mcl.n_particles();
    assert!(
        inside_free as f32 / n as f32 > 0.95,
        "{} of {} particles fell outside known-free",
        n - inside_free,
        n
    );
}

#[test]
fn predict_advances_particles_with_noise() {
    let mut cloud = Cloud::new(
        MclConfig {
            n_particles: 200,
            jitter_xy_m: single(0.0),
            jitter_yaw_rad: single(0.0),
            ..MclConfig::default()
        },
        0,
    );
    place(&mut cloud, |_| (0.0, 0.0, 0.0));
    cloud.predict(1.0, 0.0, 0.0);
    let n = cloud.mcl.n_particles() as f32;
    let mx = cloud.particles().iter().map(|p| p.0).sum::<f32>() / n;
    assert!((mx - 1.0).abs() < 0.10, "mean x after predict = {mx}");
    assert!(cloud.position_std() > 0.0);
}

#[test]
fn update_concentrates_weight_around_truth_seed() {
    let grid = walked_room();
    let truth = (0.5_f32, -0.5_f32, 0.0_f32);
    let decoy = (-1.0_f32, 0.5_f32, std::f32::consts::PI);
    let mut cloud = Cloud::new(MclConfig { n_particles: 400, ..MclConfig::default() }, 0);
    let half = cloud.mcl.n_particles() / 2;
    let noise: Vec<Pose> = {
        let rng = cloud.mcl.rng_mut();
        (0..400).map(|_| (normal(rng, 0.05), normal(rng, 0.05), normal(rng, 0.02))).collect()
    };
    place(&mut cloud, |i| {
        let s = if i < half { truth } else { decoy };
        (s.0 + noise[i].0, s.1 + noise[i].1, wrap_pi(s.2 + noise[i].2))
    });
    let mut a = Vec::new();
    let mut r = Vec::new();
    let fan = std::f32::consts::FRAC_PI_2;
    for k in 0..64 {
        let aa = -fan + (k as f32 / 63.0) * 2.0 * fan;
        let rr = grid.cast_ray(truth.0, truth.1, truth.2 + aa, 4.0);
        if rr > 0.0 {
            a.push(aa);
            r.push(rr);
        }
    }
    let scan = polar(&a, &r, (0.0, 0.0), 1e-6);
    for _ in 0..8 {
        cloud.update(&grid, &scan);
    }
    let near = |c: Pose| {
        cloud
            .particles()
            .iter()
            .filter(|p| {
                let (dx, dy) = (p.0 - c.0, p.1 - c.1);
                (dx * dx + dy * dy).sqrt() < 0.30
            })
            .count()
    };
    let (n_truth, n_decoy) = (near(truth), near(decoy));
    assert!(
        n_truth > 3 * n_decoy.max(1),
        "truth cluster didn't dominate: near_truth={n_truth} near_decoy={n_decoy}"
    );
}

// The pipeline

#[test]
fn a_walked_loop_closes_and_corrects_tracking() {
    let mut world = Ground::new((-2.5, 2.5), (-2.5, 2.5), 0.05);
    laps(&mut world, 6, 1.6, true);
    let scan_at = |at: Pose| -> Scan {
        let mut a = Vec::new();
        let mut r = Vec::new();
        for k in 0..180 {
            let aa = -std::f32::consts::PI + (k as f32) * (2.0 * std::f32::consts::PI / 180.0);
            let rr = world.cast_ray(at.0, at.1, at.2 + aa, 4.0);
            if rr < 3.9 {
                a.push(aa);
                r.push(rr);
            }
        }
        polar(&a, &r, (0.0, 0.0), 1e-3)
    };
    let mut session = Session::new(
        SlamConfig {
            loops: LoopCloserConfig { min_witness_beams: 60, ..SlamConfig::default().loops },
            ..SlamConfig::default()
        },
        small_ground(),
    );
    let waypoints = [
        (0.0f32, 0.0f32),
        (0.9, 0.0),
        (0.9, -1.0),
        (-0.4, -1.0),
        (-0.4, 0.0),
        (0.0, 0.0),
    ];
    let mut path: Vec<Pose> = Vec::new();
    for pair in waypoints.windows(2) {
        let (ax, ay) = pair[0];
        let (bx, by) = pair[1];
        let steps = (((bx - ax).hypot(by - ay)) / 0.1).ceil() as usize;
        for s in 0..steps {
            let t = s as f32 / steps as f32;
            path.push((ax + t * (bx - ax), ay + t * (by - ay), 0.0));
        }
    }
    let mut now = 0.0f32;
    for (i, truth) in path.iter().enumerate() {
        let drift = 0.005 * i as f32;
        session.observe_odom((truth.0 + drift, truth.1, truth.2));
        session.tick(now);
        let scan = scan_at(*truth);
        let at = pose(session.slam.tracked_pose());
        for _ in 0..4 {
            session.integrate(at, &scan, 1);
        }
        now += 1.0;
    }
    let raw_drift = 0.005 * (path.len() - 1) as f32;
    let end = *path.last().expect("path");
    for _ in 0..12 {
        session.observe_odom((end.0 + raw_drift, end.1, end.2));
        session.tick(now);
        now += 1.0;
    }
    assert!(session.slam.n_submaps() > 3, "the walk must span several submaps");
    assert!(session.slam.n_loops() > 0, "revisiting the start must close a loop");
    let ended = pose(session.slam.tracked_pose());
    let err = (ended.0 - end.0).hypot(ended.1 - end.1);
    assert!(
        err < raw_drift * 0.75,
        "loop closure must beat raw odometry: err {err:.3} vs drift {raw_drift:.3}"
    );
    let grid = session.render().expect("submaps exist");
    assert!(grid.grid.width() > 20 && grid.grid.height() > 20);
}

/// What is saved of a session, for it to be resumed from.
fn saved(session: &Session<Ground>) -> SessionState<Ground> {
    let copy = |map: &Submap<Ground>| {
        let g = map.grid();
        let (w, h) = (g.grid.width(), g.grid.height());
        let log = (0..w * h).map(|k| g.grid.log_at(k / w, k % w)).collect();
        let grid = OccupancyGrid::from_cells(w, h, log).expect("the same size");
        let mut out =
            Submap::new_at(map.anchor_pose(), Ground { grid, x: g.x, y: g.y, cell: g.cell });
        for raw in map.raw_scans() {
            out.integrate_scan_weighted(
                map.anchor_pose(),
                raw.pose_in_submap,
                &raw.scan,
                true,
            );
        }
        out
    };
    let slam = &session.slam;
    SessionState {
        frozen: slam.manager().frozen().iter().map(copy).collect(),
        current: slam.manager().current().map(copy),
        graph: PoseGraph::from_parts(
            slam.graph().nodes().to_vec(),
            slam.graph().edges().to_vec(),
        ),
        node_for_submap: slam.node_for_submap().to_vec(),
        tracked_pose: slam.tracked_pose(),
    }
}

#[test]
fn a_session_survives_a_restart() {
    let mut session = Session::new(SlamConfig::default(), small_ground());
    session.observe_odom((0.0, 0.0, 0.0));
    session.tick(0.0);
    session.integrate((0.0, 0.0, 0.0), &polar(&[0.0], &[1.0], (0.0, 0.0), 1e-3), 1);
    let resumed = Session::resume(SlamConfig::default(), small_ground(), saved(&session));
    assert_eq!(resumed.slam.n_submaps(), 1);
    assert_eq!(resumed.slam.tracked_pose(), session.slam.tracked_pose());
}

#[test]
fn a_session_that_does_not_fit_together_is_told() {
    let mut session = Session::new(SlamConfig::default(), small_ground());
    session.observe_odom((0.0, 0.0, 0.0));
    assert!(!session.tick(0.0), "the first submap opens, and none freezes");
    session.integrate((0.0, 0.0, 0.0), &polar(&[0.0], &[1.0], (0.0, 0.0), 1e-3), 1);
    assert!(session.slam.is_sound());
    let sound = |state| Slam::from_session(SlamConfig::default(), state).is_sound();
    assert!(sound(saved(&session)));

    let mut unknown_node = saved(&session);
    unknown_node.node_for_submap = vec![1];
    assert!(!sound(unknown_node));

    let mut node_missing = saved(&session);
    node_missing.node_for_submap.clear();
    assert!(!sound(node_missing));

    let mut edge_to_nowhere = saved(&session);
    edge_to_nowhere.graph.add_edge(PoseEdge {
        from: 0,
        to: 1,
        measurement: pose2((0.0, 0.0, 0.0)),
        information: [[single(0.0); 3]; 3],
    });
    assert!(!sound(edge_to_nowhere));

    let mut two_on_one_node = saved(&session);
    two_on_one_node.frozen = saved(&session).current.into_iter().collect();
    two_on_one_node.node_for_submap = vec![0, 0];
    assert!(sound(two_on_one_node), "odd, but nothing is out of place");
}

// The mapper

/// What the sensor sees from its true pose in a rectangular room with a half-divider,
/// which no turn maps onto itself.
fn room_scan(at: Pose) -> Scan {
    let mut angles = Vec::new();
    let mut ranges = Vec::new();
    for k in 0..240 {
        let a = -std::f32::consts::PI + k as f32 * (2.0 * std::f32::consts::PI / 240.0);
        let (dx, dy) = ((at.2 + a).cos(), (at.2 + a).sin());
        let tx = if dx > 1e-6 {
            (1.5 - at.0) / dx
        } else if dx < -1e-6 {
            (-1.5 - at.0) / dx
        } else {
            f32::INFINITY
        };
        let ty = if dy > 1e-6 {
            (1.1 - at.1) / dy
        } else if dy < -1e-6 {
            (-1.1 - at.1) / dy
        } else {
            f32::INFINITY
        };
        let mut r = tx.min(ty);
        if dx.abs() > 1e-6 {
            let td = (0.3 - at.0) / dx;
            if td > 0.0 {
                let y_hit = at.1 + td * dy;
                if (-1.1..=0.0).contains(&y_hit) {
                    r = r.min(td);
                }
            }
        }
        if r.is_finite() && r < 1.9 {
            angles.push(a);
            ranges.push(r);
        }
    }
    polar(&angles, &ranges, (0.0, 0.0), 1e-3)
}

fn sample_of(odom: Pose, sitting: bool, fallen: bool) -> MapperSample {
    MapperSample { odom: pose2(odom), moving: false, sitting, fallen }
}

fn cartographer(cfg: MapperConfig) -> Cartographer<Ground> {
    Cartographer::new(cfg, Session::new(SlamConfig::default(), small_ground()))
}

fn drive(
    m: &mut Cartographer<Ground>,
    t0: f32,
    at: Pose,
    seconds: f32,
    notes: &mut Vec<Note>,
) -> f32 {
    let mut t = t0;
    let end = t0 + seconds;
    let mut next_frame = t0;
    while t < end {
        m.observe(t, sample_of(at, false, false), notes);
        if t >= next_frame {
            m.frame(t, room_scan(at));
            next_frame += 1.0 / 15.0;
        }
        t += 0.02;
    }
    t
}

fn sit(m: &mut Cartographer<Ground>, t0: f32, ticks: usize, notes: &mut Vec<Note>) -> f32 {
    let mut t = t0;
    for _ in 0..ticks {
        m.observe(t, sample_of((0.0, 0.0, 0.0), true, false), notes);
        t += 0.02;
    }
    t
}

#[test]
fn a_kidnapped_mapper_stops_relocates_and_resumes() {
    let mut m = cartographer(MapperConfig::default());
    let mut notes = Vec::new();
    let mut t = drive(&mut m, 0.0, (0.0, 0.0, 0.0), 8.0, &mut notes);
    t = drive(&mut m, t, (0.9, -0.6, -1.2), 8.0, &mut notes);
    assert!(m.mapper.windows() >= 2, "the stands must have inked windows");
    assert!(m.mapper.tracking());
    t = sit(&mut m, t, 50, &mut notes);
    assert!(!m.mapper.tracking(), "a sit must make the pose suspect");

    let truth = (0.8, 0.5, 0.9);
    let mut next_frame = t;
    let end = t + 20.0;
    let mut relocalized = None;
    while t < end {
        m.observe(t, sample_of((0.0, 0.0, 0.0), false, false), &mut notes);
        if t >= next_frame {
            m.frame(t, room_scan(truth));
            next_frame += 1.0 / 15.0;
        }
        for note in notes.drain(..) {
            if let Note::Relocalized { pose, .. } = note {
                relocalized = Some(pose);
            }
        }
        if relocalized.is_some() {
            break;
        }
        t += 0.02;
    }
    let at = pose(relocalized.expect("the mapper must relocalize after a kidnap"));
    let err = (at.0 - truth.0).hypot(at.1 - truth.1);
    assert!(err < 0.25, "relocalized {at:?}, truth {truth:?}");
    assert!(wrap_pi(at.2 - truth.2).abs() < 0.3);
    assert!(m.mapper.tracking());
}

#[test]
fn a_sit_in_place_recovers_in_one_window() {
    let mut m = cartographer(MapperConfig::default());
    let mut notes = Vec::new();
    let t = drive(&mut m, 0.0, (0.0, 0.0, 0.0), 8.0, &mut notes);
    let t = sit(&mut m, t, 100, &mut notes);
    assert!(!m.mapper.tracking());
    let before = pose(m.session.slam.tracked_pose());
    drive(&mut m, t, (0.0, 0.0, 0.0), 8.0, &mut notes);
    assert!(m.mapper.tracking(), "an unmoved robot must confirm its pose and resume");
    let confirmed = notes.iter().rev().find_map(|n| match n {
        Note::Relocalized { pose, .. } => Some(*pose),
        _ => None,
    });
    let at = pose(confirmed.expect("confirmation shows up as a relocalization"));
    assert!((at.0 - before.0).hypot(at.1 - before.1) < 0.05);
}

#[test]
fn a_fall_makes_the_pose_suspect_and_recovers() {
    let mut m = cartographer(MapperConfig::default());
    let mut notes = Vec::new();
    let mut t = drive(&mut m, 0.0, (0.0, 0.0, 0.0), 8.0, &mut notes);
    for _ in 0..50 {
        m.observe(t, sample_of((0.0, 0.0, 0.0), false, true), &mut notes);
        t += 0.02;
    }
    assert!(!m.mapper.tracking(), "a fall must make the pose suspect");
    drive(&mut m, t, (0.0, 0.0, 0.0), 8.0, &mut notes);
    assert!(m.mapper.tracking(), "an unmoved robot must confirm and resume");
}

#[test]
fn a_resumed_session_confirms_before_inking() {
    let mut m = cartographer(MapperConfig::default());
    let mut notes = Vec::new();
    drive(&mut m, 0.0, (0.0, 0.0, 0.0), 8.0, &mut notes);
    let restored = saved(&m.session);
    let mut resumed = Cartographer::new(
        MapperConfig::default(),
        Session::resume(SlamConfig::default(), small_ground(), restored),
    );
    assert!(!resumed.mapper.tracking(), "a resumed map must not vouch for its pose");
    drive(&mut resumed, 100.0, (0.0, 0.0, 0.0), 8.0, &mut notes);
    assert!(
        resumed.mapper.tracking(),
        "booting where it saved must confirm from the first window"
    );
}

#[test]
fn soft_suspicion_gives_up_when_nothing_can_judge() {
    let mut m = cartographer(MapperConfig::default());
    let mut notes = Vec::new();
    let t = drive(&mut m, 0.0, (0.0, 0.0, 0.0), 8.0, &mut notes);
    let mut t = sit(&mut m, t, 50, &mut notes);
    assert!(!m.mapper.tracking());
    let ring: Vec<f32> = (0..240)
        .map(|k| -std::f32::consts::PI + k as f32 * (2.0 * std::f32::consts::PI / 240.0))
        .collect();
    let ranges = vec![1.0f32; 240];
    let scan = polar(&ring, &ranges, (0.0, 0.0), 1e-3);
    let mut next_frame = t;
    let mut resumed = None;
    let end = t + 60.0;
    while t < end {
        m.observe(t, sample_of((5.0, 5.0, 0.0), false, false), &mut notes);
        if t >= next_frame {
            m.frame(t, scan.duplicate());
            next_frame += 1.0 / 15.0;
        }
        for n in notes.drain(..) {
            if let Note::ResumedUnverified { pose } = n {
                resumed = Some(pose);
            }
        }
        if resumed.is_some() {
            break;
        }
        t += 0.02;
    }
    let at = pose(resumed.expect("soft suspicion must eventually give up"));
    assert!(m.mapper.tracking());
    assert!((at.0 - 5.0).abs() < 0.1 && (at.1 - 5.0).abs() < 0.1);
}

#[test]
fn continuous_mode_recovers_from_suspicion() {
    let mut m = cartographer(MapperConfig { continuous: true, ..MapperConfig::default() });
    let mut notes = Vec::new();
    let t = drive(&mut m, 0.0, (0.0, 0.0, 0.0), 8.0, &mut notes);
    assert!(m.mapper.tracking());
    let t = sit(&mut m, t, 50, &mut notes);
    assert!(!m.mapper.tracking(), "a sit must suspend continuous mapping");
    drive(&mut m, t, (0.0, 0.0, 0.0), 10.0, &mut notes);
    assert!(
        m.mapper.tracking(),
        "an unmoved continuous mapper must confirm its pose and resume"
    );
}

#[test]
fn a_contradicted_seed_never_resumes_unverified() {
    let mut m = cartographer(MapperConfig::default());
    let mut notes = Vec::new();
    let t = drive(&mut m, 0.0, (0.0, 0.0, 0.0), 8.0, &mut notes);
    let mut t = sit(&mut m, t, 50, &mut notes);
    assert!(!m.mapper.tracking());
    let mut angles = Vec::new();
    let mut ranges = Vec::new();
    for k in 0..1000 {
        let a = -std::f32::consts::PI + k as f32 * (2.0 * std::f32::consts::PI / 1000.0);
        angles.push(a);
        ranges.push(if k % 7 == 0 { 0.9 } else { 1.9 });
    }
    let scan = polar(&angles, &ranges, (0.0, 0.0), 1e-3);
    let mut next_frame = t;
    let end = t + 90.0;
    while t < end {
        m.observe(t, sample_of((0.0, 0.0, 0.0), false, false), &mut notes);
        if t >= next_frame {
            m.frame(t, scan.duplicate());
            next_frame += 1.0 / 15.0;
        }
        for n in notes.drain(..) {
            assert!(
                !matches!(n, Note::ResumedUnverified { .. }),
                "a judged-and-contradicted pose must never resume unverified"
            );
            if let Note::Relocalized { pose, .. } = n {
                panic!("nothing should confirm here, got {pose:?}");
            }
        }
        t += 0.02;
    }
    assert!(!m.mapper.tracking(), "the mapper must still be searching");
}

#[test]
fn exploring_new_territory_is_not_a_kidnap() {
    let mut m = cartographer(MapperConfig::default());
    let mut notes = Vec::new();
    let t = drive(&mut m, 0.0, (0.0, 0.0, 0.0), 8.0, &mut notes);
    drive(&mut m, t, (0.4, -0.3, 2.5), 8.0, &mut notes);
    assert!(m.mapper.tracking(), "new territory must be mapped, not declared a kidnap");
}

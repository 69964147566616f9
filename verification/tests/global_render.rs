use microduck::global_render::{
    footprint_of, render_global, Bounds, Footprint, GlobalRenderConfig, Layer,
};
use microduck::grid::{LogRange, OccupancyGrid};
use microduck::ieee::Single;

fn s(x: f32) -> Single {
    Single { bits: x.to_bits() }
}

const RANGE: LogRange = LogRange { lo: -400, hi: 600 };

#[test]
fn bounds_hold_every_corner() {
    let b = Bounds::empty().cover(s(1.0), s(-2.0)).cover(s(-3.0), s(4.0)).cover(s(0.0), s(0.0));
    assert_eq!((b.min_x, b.max_x), (s(-3.0), s(1.0)));
    assert_eq!((b.min_y, b.max_y), (s(-2.0), s(4.0)));
}

#[test]
fn a_footprint_has_a_cell_to_spare_and_stays_on_the_grid() {
    assert_eq!(
        footprint_of((2, 3), (4, 5), 100, 100),
        Footprint { i_lo: 1, i_hi: 5, j_lo: 2, j_hi: 6 }
    );
    assert_eq!(
        footprint_of((-5, 0), (99, 99), 100, 50),
        Footprint { i_lo: 0, i_hi: 49, j_lo: 0, j_hi: 99 }
    );
}

fn layer(grid: &OccupancyGrid) -> Layer<'_> {
    Layer {
        grid,
        footprint: Footprint { i_lo: 0, i_hi: 0, j_lo: 0, j_hi: 2 },
        samples: vec![Some((0, 0)), None, Some((0, 1))],
    }
}

#[test]
fn layers_add_up_within_the_range() {
    let cfg = GlobalRenderConfig::default();
    let wall = OccupancyGrid::from_cells(2, 1, vec![500, -300]).unwrap();
    let g = render_global(&[layer(&wall), layer(&wall)], 3, 1, &cfg, RANGE).unwrap();
    assert_eq!(g.log_at(0, 0), 600);
    assert_eq!(g.log_at(0, 1), 0);
    assert_eq!(g.log_at(0, 2), -400);
}

#[test]
fn faint_cells_are_left_out() {
    let cfg = GlobalRenderConfig { min_hit_threshold_fp: 150, ..GlobalRenderConfig::default() };
    let faint = OccupancyGrid::from_cells(2, 1, vec![149, -151]).unwrap();
    let g = render_global(&[layer(&faint)], 3, 1, &cfg, RANGE).unwrap();
    assert_eq!(g.log_at(0, 0), 0);
    assert_eq!(g.log_at(0, 2), -151);
}

#[test]
fn a_cell_at_the_threshold_is_left_out() {
    let cfg = GlobalRenderConfig { min_hit_threshold_fp: 150, ..GlobalRenderConfig::default() };
    let at = OccupancyGrid::from_cells(2, 1, vec![150, -150]).unwrap();
    let g = render_global(&[layer(&at)], 3, 1, &cfg, RANGE).unwrap();
    assert_eq!((g.log_at(0, 0), g.log_at(0, 2)), (0, 0));
    let past = OccupancyGrid::from_cells(2, 1, vec![151, -151]).unwrap();
    let g = render_global(&[layer(&past)], 3, 1, &cfg, RANGE).unwrap();
    assert_eq!((g.log_at(0, 0), g.log_at(0, 2)), (151, -151));
}

#[test]
fn a_threshold_of_nothing_leaves_only_blank_cells_out() {
    let cfg = GlobalRenderConfig { min_hit_threshold_fp: 0, ..GlobalRenderConfig::default() };
    let bare = OccupancyGrid::from_cells(2, 1, vec![1, -1]).unwrap();
    let g = render_global(&[layer(&bare)], 3, 1, &cfg, RANGE).unwrap();
    assert_eq!((g.log_at(0, 0), g.log_at(0, 2)), (1, -1));
}

#[test]
fn no_layers_make_no_grid() {
    assert!(render_global(&[], 3, 1, &GlobalRenderConfig::default(), RANGE).is_none());
}

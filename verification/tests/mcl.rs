use microduck::ieee::Single;
use microduck::mcl::{
    cluster_members, count_within, densest_bin, resample_choices, Draw, Localizer, MclConfig,
    UpdateAsk, UpdateEvent,
};
use microduck::submap::Pose2;

fn s(x: f32) -> Single {
    Single { bits: x.to_bits() }
}

fn all(xs: &[f32]) -> Vec<Single> {
    xs.iter().map(|x| s(*x)).collect()
}

fn at(x: f32) -> Pose2 {
    Pose2 { x: s(x), y: s(0.0), yaw: s(0.0) }
}

fn four() -> Localizer {
    let mut mcl = Localizer::new(MclConfig { n_particles: 4, ..MclConfig::default() }, 1);
    mcl.seed_uniform((0..4).map(|k| at(k as f32)).collect(), s(0.25));
    mcl
}

#[test]
fn a_cloud_has_a_particle_at_least() {
    let mcl = Localizer::new(MclConfig { n_particles: 0, ..MclConfig::default() }, 1);
    assert_eq!(mcl.n_particles(), 1);
    assert!(mcl.last_residual_m().is_nan());
    assert_eq!(mcl.locked_streak(), 0);
    assert!(!mcl.is_locked());
}

#[test]
fn the_densest_bin_is_the_lower_of_equals() {
    assert_eq!(densest_bin(&[]), None);
    assert_eq!(densest_bin(&[(2, 0, 0), (1, 5, 0), (2, 0, 0), (1, 5, 0)]), Some((1, 5, 0)));
    assert_eq!(densest_bin(&[(1, 5, 0), (2, 0, 0), (2, 0, 0)]), Some((2, 0, 0)));
}

#[test]
fn the_wheel_keeps_by_share() {
    let picked = resample_choices(&all(&[0.1, 0.1, 0.8, 1.0]), &all(&[0.05, 0.3, 0.55, 0.8]));
    assert_eq!(picked, vec![0, 2, 2, 2]);
    let last = resample_choices(&all(&[0.5]), &all(&[0.9]));
    assert_eq!(last, vec![0]);
}

#[test]
fn counting_leaves_the_edge_out() {
    assert_eq!(count_within(&all(&[0.0, 0.5, 1.0, 2.0]), s(1.0)), 2);
    let members = cluster_members(
        &all(&[0.0, 0.5, 0.5, 2.0]),
        &all(&[0.0, 0.1, 0.9, 0.0]),
        s(1.0),
        s(0.5),
    );
    assert_eq!(members, vec![0, 1]);
}

#[test]
fn draws_stay_within_the_free_cells() {
    let mut mcl = four();
    for draw in mcl.draw_uniform(3) {
        match draw {
            Draw::InCell { cell, dx, dy, yaw } => {
                assert!(cell < 3);
                assert!(dx < 1 << 24 && dy < 1 << 24 && yaw < 1 << 24);
            }
            Draw::Nowhere { .. } => panic!("there are free cells"),
        }
    }
    assert!(mcl.draw_uniform(0).iter().all(|d| matches!(d, Draw::Nowhere { .. })));
}

#[test]
fn a_sum_of_nothing_levels_the_weights() {
    let mut mcl = four();
    mcl.reweigh(all(&[0.1, 0.2, 0.3, 0.4]), s(2.0), s(0.25));
    assert_eq!(mcl.weights(), &all(&[0.1, 0.2, 0.3, 0.4])[..]);
    assert_eq!(mcl.best(), at(3.0));
    mcl.reweigh(all(&[0.0, 0.0, 0.0, 0.0]), s(0.0), s(0.25));
    assert_eq!(mcl.weights(), &all(&[0.25; 4])[..]);
}

#[test]
fn resampling_waits_and_then_follows_the_weights() {
    let mut mcl = four();
    assert!(!mcl.needs_resampling(s(1.0), s(2.0)));
    for _ in 0..5 {
        mcl.reweigh(all(&[0.0, 0.0, 1.0, 0.0]), s(1.0), s(0.25));
        assert!(!mcl.needs_resampling(s(1.0), s(2.0)), "one of the first five");
    }
    mcl.reweigh(all(&[0.0, 0.0, 1.0, 0.0]), s(1.0), s(0.25));
    assert!(mcl.needs_resampling(s(1.0), s(2.0)));
    assert!(!mcl.needs_resampling(s(2.0), s(2.0)));
    mcl.systematic_resample(
        &all(&[0.0, 0.0, 1.0, 1.0]),
        &all(&[0.1, 0.35, 0.6, 0.85]),
        s(0.25),
    );
    assert!(mcl.particles().iter().all(|p| *p == at(2.0)));
    assert_eq!(mcl.weights(), &all(&[0.25; 4])[..]);
}

#[test]
fn injections_go_to_free_cells() {
    let mut mcl = four();
    let mut free = vec![false; 12];
    free[7] = true;
    let drawn = mcl.draw_injections(&free, 4, 3, 2);
    assert!(drawn.len() <= 2);
    for d in &drawn {
        assert_eq!(d.cell, (1, 3));
        assert!(d.victim < 4);
    }
    assert!(mcl.draw_injections(&[false; 12], 4, 3, 2).is_empty());
    mcl.inject_uniform(&[(1, at(9.0)), (1, at(8.0))]);
    assert_eq!(mcl.particles()[1], at(8.0));
    assert_eq!(mcl.particles()[0], at(0.0));
}

#[test]
fn a_lock_takes_good_scans_in_a_row() {
    let cfg = MclConfig { n_particles: 4, ..MclConfig::default() };
    let mut mcl = Localizer::new(cfg, 1);
    mcl.record_residual(s(0.01));
    for k in 1..=cfg.locked_min_frames {
        assert!(!mcl.is_locked());
        mcl.update(at(0.0), s(1.0), s(1.0));
        assert_eq!(mcl.locked_streak(), k);
    }
    assert!(mcl.is_locked());
    mcl.update(at(0.0), s(0.1), s(1.0));
    assert_eq!(mcl.locked_streak(), 0);
    assert_eq!(mcl.cluster_anchor(), Some(at(0.0)));
    mcl.predict(vec![at(1.0), at(1.0), at(1.0), at(1.0)]);
    assert_eq!(mcl.cluster_anchor(), None);
}

#[test]
fn seeds_replace_the_first_of_a_placed_cloud() {
    let mut mcl = four();
    mcl.seed_mixed(&[at(7.0), at(8.0)]);
    assert_eq!(mcl.particles(), &[at(7.0), at(8.0), at(2.0), at(3.0)][..]);
    mcl.seed_around(0, vec![at(5.0); 4], s(0.25));
    assert_eq!(mcl.particles()[0], at(7.0));
    mcl.seed_around(1, vec![at(5.0); 4], s(0.25));
    assert_eq!(mcl.particles()[3], at(5.0));
}

fn weighed(weights: &[f32]) -> UpdateEvent {
    UpdateEvent::Weighed { normalised: all(weights), sum: s(1.0), each: s(0.25) }
}

fn gathered() -> UpdateEvent {
    UpdateEvent::Gathered { anchor: at(7.0), in_place: s(1.0), in_heading: s(1.0) }
}

#[test]
fn a_scan_with_too_few_beams_asks_for_nothing() {
    let mcl = four();
    assert!(matches!(mcl.begin_update(15), UpdateAsk::Done));
    assert!(matches!(mcl.begin_update(16), UpdateAsk::Weigh));
}

#[test]
fn an_update_without_resampling_leaves_the_cloud_alone() {
    let mut mcl = four();
    let before = mcl.particles().to_vec();
    let ask = mcl.begin_update(64);
    let ask = mcl.step_update(ask, weighed(&[0.1, 0.6, 0.2, 0.1]));
    assert!(matches!(ask, UpdateAsk::Score { at: 1 }));
    let ask = mcl.step_update(ask, UpdateEvent::Scored { mean: s(0.01) });
    assert!(matches!(ask, UpdateAsk::Measure));
    let ask = mcl.step_update(ask, UpdateEvent::Measured { effective: s(1.0), least: s(2.0) });
    assert!(matches!(ask, UpdateAsk::Gather), "the first scans only gather evidence");
    let ask = mcl.step_update(ask, gathered());
    assert!(matches!(ask, UpdateAsk::Done));
    assert_eq!(mcl.particles(), &before[..]);
    assert_eq!(mcl.weights(), &all(&[0.1, 0.6, 0.2, 0.1])[..]);
    assert_eq!((mcl.last_residual_m(), mcl.locked_streak()), (s(0.01), 1));
    assert_eq!(mcl.cluster_anchor(), Some(at(7.0)));
}

#[test]
fn an_update_that_resamples_spins_injects_and_gathers() {
    let mut mcl = four();
    for _ in 0..5 {
        mcl.reweigh(all(&[0.25; 4]), s(1.0), s(0.25));
    }
    let ask = mcl.begin_update(64);
    let ask = mcl.step_update(ask, weighed(&[0.0, 0.0, 1.0, 0.0]));
    let ask = mcl.step_update(ask, UpdateEvent::Scored { mean: s(0.01) });
    let ask = mcl.step_update(ask, UpdateEvent::Measured { effective: s(1.0), least: s(2.0) });
    assert!(matches!(ask, UpdateAsk::Sum));
    let cum = all(&[0.0, 0.0, 1.0, 1.0]);
    let ask = mcl.step_update(ask, UpdateEvent::Summed { cum: cum.clone(), each: s(0.25) });
    match &ask {
        UpdateAsk::Spin { cum: sums, first } => {
            assert_eq!(*sums, cum);
            assert!(*first < 1 << 24);
        }
        other => panic!("{other:?}"),
    }
    let us = all(&[0.1, 0.35, 0.6, 0.85]);
    let ask = mcl.step_update(ask, UpdateEvent::Spun { us, each: s(0.25) });
    assert!(matches!(ask, UpdateAsk::Inject));
    assert!(mcl.particles().iter().all(|p| *p == at(2.0)));
    let room = UpdateEvent::Room { free: vec![true; 6], w: 3, h: 2, count: 1 };
    let ask = mcl.step_update(ask, room);
    let victim = match &ask {
        UpdateAsk::Place { drawn } => {
            assert_eq!(drawn.len(), 1);
            assert!(drawn[0].cell.0 < 2 && drawn[0].cell.1 < 3);
            drawn[0].victim
        }
        other => panic!("{other:?}"),
    };
    let ask = mcl.step_update(ask, UpdateEvent::Placed { poses: vec![at(9.0)] });
    assert!(matches!(ask, UpdateAsk::Gather));
    for (k, p) in mcl.particles().iter().enumerate() {
        assert_eq!(*p, if k == victim { at(9.0) } else { at(2.0) });
    }
    assert_eq!(mcl.weights(), &all(&[0.25; 4])[..]);
    let ask = mcl.step_update(ask, gathered());
    assert!(matches!(ask, UpdateAsk::Done));
}

#[test]
fn weights_that_sum_up_to_nothing_are_levelled_without_a_spin() {
    let mut mcl = four();
    let before = mcl.particles().to_vec();
    mcl.reweigh(all(&[0.0; 4]), s(1.0), s(0.25));
    let sums = UpdateEvent::Summed { cum: all(&[0.0; 4]), each: s(0.25) };
    let ask = mcl.step_update(UpdateAsk::Sum, sums);
    assert!(matches!(ask, UpdateAsk::Inject));
    assert_eq!(mcl.weights(), &all(&[0.25; 4])[..]);
    let room = UpdateEvent::Room { free: vec![], w: 0, h: 0, count: 0 };
    assert!(matches!(mcl.step_update(ask, room), UpdateAsk::Gather));
    assert_eq!(mcl.particles(), &before[..]);
}

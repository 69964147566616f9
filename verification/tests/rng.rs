use microduck::ieee::Single;
use microduck::rng::{NormalDraw, Rng};

fn uniform(rng: &mut Rng) -> f32 {
    rng.uniform() as f32 * (1.0 / (1u64 << 24) as f32)
}

fn normal(rng: &mut Rng, sigma: f32) -> f32 {
    match rng.normal_draw() {
        NormalDraw::Spare(z) => f32::from_bits(z.bits) * sigma,
        NormalDraw::Fresh { radius, angle } => {
            let unit = 1.0 / (1u64 << 24) as f32;
            let r = (1.0 - f64::from(radius as f32 * unit)).max(f64::MIN_POSITIVE);
            let theta = std::f64::consts::TAU * f64::from(angle as f32 * unit);
            let mag = (-2.0 * r.ln()).sqrt();
            rng.keep_spare(Single {
                bits: ((mag * theta.sin()) as f32).to_bits(),
            });
            (mag * theta.cos()) as f32 * sigma
        }
    }
}

#[test]
fn the_stream_is_deterministic() {
    let mut a = Rng::from_seed(0xC0FFEE);
    let mut b = Rng::from_seed(0xC0FFEE);
    for _ in 0..1000 {
        assert_eq!(a.next_u64(), b.next_u64());
    }
}

#[test]
fn distributions_are_sane() {
    let mut rng = Rng::from_seed(7);
    let n = 100_000;
    let mean: f32 = (0..n).map(|_| uniform(&mut rng)).sum::<f32>() / n as f32;
    assert!((mean - 0.5).abs() < 0.01, "uniform mean {mean}");

    let (mut sum, mut sum2) = (0.0f64, 0.0f64);
    for _ in 0..n {
        let v = f64::from(normal(&mut rng, 2.0));
        sum += v;
        sum2 += v * v;
    }
    let m = sum / f64::from(n);
    let sd = (sum2 / f64::from(n) - m * m).sqrt();
    assert!(m.abs() < 0.05, "normal mean {m}");
    assert!((sd - 2.0).abs() < 0.05, "normal sd {sd}");

    let mut counts = [0usize; 5];
    for _ in 0..n {
        counts[rng.index(5)] += 1;
    }
    assert!(counts.iter().all(|&c| c > n as usize / 5 - 2000));
}

#[test]
fn the_stream_is_xoshiro_seeded_by_splitmix() {
    // xoshiro256++ from the words that splitmix64 expands 0 into.
    let mut words = [0u64; 4];
    let mut x = 0u64;
    for w in &mut words {
        x = x.wrapping_add(0x9E37_79B9_7F4A_7C15);
        let mut z = x;
        z = (z ^ (z >> 30)).wrapping_mul(0xBF58_476D_1CE4_E5B9);
        z = (z ^ (z >> 27)).wrapping_mul(0x94D0_49BB_1331_11EB);
        *w = z ^ (z >> 31);
    }
    assert_eq!(words[0], 0xE220_A839_7B1D_CDAF);
    let mut rng = Rng::from_seed(0);
    for _ in 0..100 {
        let want = words[0]
            .wrapping_add(words[3])
            .rotate_left(23)
            .wrapping_add(words[0]);
        let t = words[1] << 17;
        words[2] ^= words[0];
        words[3] ^= words[1];
        words[1] ^= words[2];
        words[0] ^= words[3];
        words[2] ^= t;
        words[3] = words[3].rotate_left(45);
        assert_eq!(rng.next_u64(), want);
    }
}

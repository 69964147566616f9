use microduck::grid::{LogRange, OccupancyGrid};
use microduck::ieee::{Double, Single};
use microduck::span::Span;
use microduck::text::{
    chars_of, eq_ignore_ascii_case, push_decimal, push_signed, same_text, split_lines,
    split_words, text_of, trimmed,
};

fn s(x: f32) -> Single {
    Single { bits: x.to_bits() }
}

fn d(x: f64) -> Double {
    Double { bits: x.to_bits() }
}

const SINGLES: [f32; 13] = [
    f32::NEG_INFINITY,
    f32::MIN,
    -1.5,
    -1.0e-40,
    -0.0,
    0.0,
    1.0e-40,
    0.25,
    1.5,
    3.0e8,
    f32::MAX,
    f32::INFINITY,
    f32::NAN,
];

#[test]
fn singles_compare_as_floats_do() {
    for a in SINGLES {
        for b in SINGLES {
            assert_eq!(s(a).lt(s(b)), a < b, "{a} < {b}");
            assert_eq!(s(a).le(s(b)), a <= b, "{a} <= {b}");
            assert_eq!(s(a).eq_value(s(b)), a == b, "{a} == {b}");
            assert_eq!(s(a).total_le(s(b)), a.total_cmp(&b).is_le(), "{a} total {b}");
            if a != b {
                assert_eq!(s(a).min(s(b)).is_nan(), a.min(b).is_nan());
                if !a.min(b).is_nan() {
                    assert_eq!(s(a).min(s(b)), s(a.min(b)), "min {a} {b}");
                    assert_eq!(s(a).max(s(b)), s(a.max(b)), "max {a} {b}");
                }
            }
        }
        assert_eq!(s(a).is_nan(), a.is_nan());
        assert_eq!(s(a).is_finite(), a.is_finite());
        assert_eq!(s(a).abs(), s(a.abs()));
        let clamped = s(a).clamp(s(-1.0), s(1.0));
        assert!(a.is_nan() && clamped.is_nan() || clamped == s(a.clamp(-1.0, 1.0)));
    }
}

#[test]
fn doubles_compare_as_floats_do() {
    for a in SINGLES {
        for b in SINGLES {
            let (x, y) = (f64::from(a), f64::from(b));
            assert_eq!(d(x).lt(d(y)), x < y);
            assert_eq!(d(x).le(d(y)), x <= y);
        }
        let x = f64::from(a);
        assert_eq!(d(x).is_nan(), x.is_nan());
        assert_eq!(d(x).is_finite(), x.is_finite());
        assert!(x.is_nan() || d(x).abs() == d(x.abs()));
        assert!(x.is_nan() || d(x).clamp(d(-1.0), d(1.0)) == d(x.clamp(-1.0, 1.0)));
    }
}

#[test]
fn spans_add_up_and_saturate() {
    assert_eq!(Span::zero().nanos(), 0);
    assert_eq!(Span::from_millis(1500).nanos(), 1_500_000_000);
    assert_eq!(Span::from_secs(2).nanos(), 2_000_000_000);
    assert!(Span::from_parts(1, 1_000_000_000).is_none());
    let most = Span::from_parts(u64::MAX, 999_999_999).unwrap();
    assert_eq!(most.saturating_add(Span::from_millis(1)).nanos(), most.nanos());
    let sum = Span::from_millis(700).saturating_add(Span::from_millis(600));
    assert_eq!(sum.nanos(), 1_300_000_000);
    assert!(Span::from_millis(5).at_most(Span::from_millis(5)));
    assert!(!Span::from_millis(6).at_most(Span::from_millis(5)));
}

#[test]
fn numbers_are_written_in_decimal() {
    let mut text = String::from("n=");
    push_decimal(&mut text, 0);
    push_decimal(&mut text, u64::MAX);
    assert_eq!(text, format!("n=0{}", u64::MAX));
    let mut signed = String::new();
    push_signed(&mut signed, -40);
    push_signed(&mut signed, i64::MIN);
    push_signed(&mut signed, 7);
    assert_eq!(signed, format!("-40{}7", i64::MIN));
}

fn lines(text: &str) -> Vec<String> {
    split_lines(&chars_of(text)).iter().map(|l| text_of(l)).collect()
}

fn words(text: &str) -> Vec<String> {
    split_words(&chars_of(text)).iter().map(|l| text_of(l)).collect()
}

#[test]
fn text_splits_as_the_standard_library_splits_it() {
    for text in ["", "a", "a\n", "a\nb", "\n", "a\r\nb\r\n", "a\r", "\n\nx", "a\r\r\nb"] {
        let expected: Vec<&str> = text.lines().collect();
        assert_eq!(lines(text), expected, "{text:?}");
    }
    for text in ["", "  a  b\tc\n", "one", "\u{2003}wide\u{a0}space "] {
        let expected: Vec<&str> = text.split_whitespace().collect();
        assert_eq!(words(text), expected, "{text:?}");
        assert_eq!(text_of(&trimmed(&chars_of(text))), text.trim(), "{text:?}");
    }
}

#[test]
fn case_is_ignored_for_ascii_alone() {
    assert!(eq_ignore_ascii_case(&chars_of("aB:3"), &chars_of("Ab:3")));
    assert!(!eq_ignore_ascii_case(&chars_of("\u{e9}"), &chars_of("\u{c9}")));
    assert!(!eq_ignore_ascii_case(&chars_of("ab"), &chars_of("abc")));
    assert!(same_text("ab", "ab"));
    assert!(!same_text("ab", "aB"));
}

#[test]
fn a_grid_holds_its_cells_and_its_range() {
    assert!(OccupancyGrid::from_cells(2, 2, vec![0; 3]).is_none());
    let mut g = OccupancyGrid::from_cells(2, 2, vec![1, 2, 3, 4]).unwrap();
    assert_eq!((g.width(), g.height()), (2, 2));
    assert_eq!(g.log_at(1, 0), 3);
    let range = LogRange { lo: -10, hi: 10 };
    g.add_log_odds_at(1, 0, 100, range);
    assert_eq!(g.log_at(1, 0), 10);
    g.add_log_odds_at(1, 0, -5, range);
    assert_eq!(g.log_at(1, 0), 5);
    assert_eq!(g.log_at(0, 0), 1);
}

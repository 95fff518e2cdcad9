//! Angles and random numbers.

use fab_lang::num::FloatOp;
use fab_lang::rng::{rands, Mt19937};
use fab_lang::trig::{
    acos_degrees, asin_degrees, atan2_degrees, atan_degrees, cos_degrees, sin_degrees, tan_degrees,
};
use fab_lang::value::{range_iter, range_len, RANGE_MAX};

fn fpu(op: FloatOp, a: u64, b: u64) -> u64 {
    let (x, y) = (f64::from_bits(a), f64::from_bits(b));
    let r = match op {
        FloatOp::Add => x + y,
        FloatOp::Sub => x - y,
        FloatOp::Mul => x * y,
        FloatOp::Div => x / y,
        FloatOp::Rem => x % y,
        FloatOp::Pow => x.powf(y),
        FloatOp::Sqrt => x.sqrt(),
        FloatOp::Floor => x.floor(),
        FloatOp::Sin => x.sin(),
        FloatOp::Cos => x.cos(),
        FloatOp::Tan => x.tan(),
        FloatOp::Asin => x.asin(),
        FloatOp::Acos => x.acos(),
        FloatOp::Atan => x.atan(),
        FloatOp::Atan2 => x.atan2(y),
        FloatOp::Round => x.round(),
        FloatOp::Degrees => x.to_degrees(),
        FloatOp::FromInt => (a as i64) as f64,
        FloatOp::Midpoint => x + (y - x) / 2.0,
    };
    r.to_bits()
}

const SQRT3_4: f64 = 0.866_025_403_784_438_6;

const FRAC_1_SQRT_2: f64 = std::f64::consts::FRAC_1_SQRT_2;

fn sin(x: f64) -> f64 {
    f64::from_bits(sin_degrees(x.to_bits(), &fpu))
}

fn cos(x: f64) -> f64 {
    f64::from_bits(cos_degrees(x.to_bits(), &fpu))
}

fn tan(x: f64) -> f64 {
    f64::from_bits(tan_degrees(x.to_bits(), &fpu))
}

fn asin(x: f64) -> f64 {
    f64::from_bits(asin_degrees(x.to_bits(), &fpu))
}

fn acos(x: f64) -> f64 {
    f64::from_bits(acos_degrees(x.to_bits(), &fpu))
}

fn atan(x: f64) -> f64 {
    f64::from_bits(atan_degrees(x.to_bits(), &fpu))
}

fn atan2(y: f64, x: f64) -> f64 {
    f64::from_bits(atan2_degrees(y.to_bits(), x.to_bits(), &fpu))
}

fn approx(a: f64, b: f64) {
    assert!((a - b).abs() < 1e-12, "{a} vs {b}");
}

fn draw(min: f64, max: f64, count: usize, seed: Option<u32>) -> Vec<f64> {
    rands(min.to_bits(), max.to_bits(), count, seed, &fpu).into_iter().map(f64::from_bits).collect()
}

fn span(start: f64, step: f64, end: f64) -> Vec<f64> {
    let mut it = range_iter(start.to_bits(), step.to_bits(), end.to_bits(), &fpu);
    let mut out = Vec::new();
    while let Some(x) = it.next(&fpu) {
        out.push(f64::from_bits(x));
    }
    out
}

fn count(start: f64, step: f64, end: f64) -> u64 {
    range_len(start.to_bits(), step.to_bits(), end.to_bits(), &fpu)
}

#[test]
fn acos_asin_snap_exact_at_nice_angles() {
    assert_eq!(acos(1.0), 0.0);
    assert_eq!(acos(SQRT3_4), 30.0);
    assert_eq!(acos(FRAC_1_SQRT_2), 45.0);
    assert_eq!(acos(0.5), 60.0);
    assert_eq!(acos(0.0), 90.0);
    assert_eq!(acos(-0.5), 120.0);
    assert_eq!(acos(-1.0), 180.0);
    assert_eq!(asin(0.5), 30.0);
    assert_eq!(asin(1.0), 90.0);
    assert_eq!(asin(-0.5), -30.0);
    assert_eq!(acos(-0.6), (-0.6_f64).acos().to_degrees());
    assert_eq!(asin(0.3), (0.3_f64).asin().to_degrees());
    assert!(acos(2.0).is_nan());
}

#[test]
fn sin_branches() {
    assert_eq!(sin(0.0), 0.0);
    assert_eq!(sin(30.0), 0.5);
    assert_eq!(sin(45.0), FRAC_1_SQRT_2);
    assert_eq!(sin(60.0), SQRT3_4);
    assert_eq!(sin(90.0), 1.0);
    assert_eq!(sin(180.0), 0.0);
    assert_eq!(sin(270.0), -1.0);
    assert_eq!(sin(120.0), SQRT3_4);
    assert_eq!(sin(720.0), 0.0);
    assert!(sin(f64::NAN).is_nan());
    approx(sin(22.5), 22.5_f64.to_radians().sin());
    approx(sin(70.0), 70.0_f64.to_radians().sin());
}

#[test]
fn cos_branches() {
    assert_eq!(cos(0.0), 1.0);
    assert_eq!(cos(30.0), SQRT3_4);
    assert_eq!(cos(45.0), FRAC_1_SQRT_2);
    assert_eq!(cos(60.0), 0.5);
    assert_eq!(cos(90.0), 0.0);
    assert_eq!(cos(180.0), -1.0);
    assert_eq!(cos(120.0), -0.5);
    assert_eq!(cos(720.0), 1.0);
    assert!(cos(f64::NAN).is_nan());
    approx(cos(70.0), 70.0_f64.to_radians().cos());
}

#[test]
fn tangents_keep_the_sign_of_zero_and_infinity() {
    assert_eq!(tan(45.0), 1.0);
    assert_eq!(tan(135.0), -1.0);
    assert_eq!(tan(30.0), 0.577_350_269_189_625_7);
    assert_eq!(tan(60.0), 1.732_050_807_568_877_2);
    assert_eq!(tan(90.0), f64::INFINITY);
    assert_eq!(tan(-90.0), f64::NEG_INFINITY);
    assert_eq!(tan(0.0).to_bits(), 0.0_f64.to_bits());
    assert_eq!(tan(-180.0).to_bits(), (-0.0_f64).to_bits());
    assert!(tan(1e30).is_nan());
    assert!(sin(1e30).is_nan());
}

#[test]
fn arc_tangents_snap_to_whole_degrees() {
    assert_eq!(atan(1.0), 45.0);
    assert_eq!(atan(-1.0), -45.0);
    assert_eq!(atan(0.3), (0.3_f64).atan().to_degrees());
    assert_eq!(atan2(1.0, 1.0), 45.0);
    assert_eq!(atan2(-1.0, -1.0), -135.0);
    assert_eq!(atan2(0.3, 1.0), (0.3_f64).atan2(1.0).to_degrees());
}

#[test]
fn whole_degrees_come_back_from_their_cosine() {
    for d in 0..=180 {
        assert_eq!(acos(cos(f64::from(d))), f64::from(d));
    }
    for d in -90..=90 {
        assert_eq!(asin(sin(f64::from(d))), f64::from(d));
    }
}

#[test]
fn matches_the_oracle() {
    let a = draw(0.0, 1.0, 3, Some(42));
    assert_eq!(format!("{:.6} {:.6} {:.6}", a[0], a[1], a[2]), "0.796543 0.183435 0.779691");
    let b = draw(0.0, 10.0, 4, Some(42));
    assert_eq!(
        format!("{:.5} {:.5} {:.5} {:.5}", b[0], b[1], b[2], b[3]),
        "7.96543 1.83435 7.79691 5.96850"
    );
    let c = draw(-1.0, 1.0, 3, Some(3));
    assert_eq!(format!("{:.6} {:.6} {:.6}", c[0], c[1], c[2]), "-0.858550 0.679898 -0.757343");
}

#[test]
fn count_and_range() {
    let v = draw(2.0, 5.0, 100, Some(7));
    assert_eq!(v.len(), 100);
    assert!(v.iter().all(|&x| (2.0..5.0).contains(&x)));
    assert_eq!(draw(0.0, 1.0, 5, Some(1)), draw(0.0, 1.0, 5, Some(1)));
}

#[test]
fn the_stream_goes_on_past_one_block_of_words() {
    let mut rng = Mt19937::new(5489);
    let mut last = 0;
    for _ in 0..10_000 {
        last = rng.next_u32();
    }
    assert_eq!(last, 4_123_659_995);
    assert_eq!(draw(0.0, 1.0, 400, Some(9))[..7], draw(0.0, 1.0, 7, Some(9))[..]);
    assert_eq!(draw(0.0, 1.0, 4, None), draw(0.0, 1.0, 4, Some(0)));
}

#[test]
fn range_iteration_matches_openscad() {
    assert_eq!(span(0.0, 1.0, 5.0), [0., 1., 2., 3., 4., 5.]);
    assert_eq!(span(0.0, 2.0, 10.0), [0., 2., 4., 6., 8., 10.]);
    assert_eq!(span(0.0, 3.0, 10.0), [0., 3., 6., 9.]);
    assert_eq!(span(5.0, -1.0, 0.0), [5., 4., 3., 2., 1., 0.]);
    assert!(span(5.0, 1.0, 0.0).is_empty());
    assert!(span(0.0, -1.0, 5.0).is_empty());
    assert!(span(0.0, 0.0, 5.0).is_empty());
    assert!(span(f64::NAN, 1.0, 5.0).is_empty());
}

#[test]
fn range_len_and_the_cap() {
    assert_eq!(count(0.0, 1.0, 5.0), 6);
    assert_eq!(count(0.0, 1.0, -1.0), 0);
    assert_eq!(count(0.0, 0.0, 5.0), 0);
    assert_eq!(count(0.0, f64::INFINITY, 5.0), 1);
    assert_eq!(count(0.0, f64::NEG_INFINITY, 5.0), 0);
    assert_eq!(count(1.0, f64::NEG_INFINITY, 0.0), 1);
    assert_eq!(count(0.0, f64::NAN, 5.0), 0);
    assert_eq!(count(0.0, 1.0 / 93.0, 1.0), 94);
    assert_eq!(span(0.0, 1.0, 1e12).len() as u64, RANGE_MAX);
}

#[test]
fn a_fraction_that_rounds_up_stays_below_one() {
    let up = |op: FloatOp, a: u64, b: u64| if let FloatOp::Div = op { 1.0_f64.to_bits() } else { fpu(op, a, b) };
    let below = f64::from_bits(1.0_f64.to_bits() - 1);
    assert_eq!(f64::from_bits(Mt19937::new(7).canonical(&up)), below);
    let plain = f64::from_bits(Mt19937::new(7).canonical(&fpu));
    assert!((0.0..1.0).contains(&plain) && plain != below);
}

#[test]
fn whole_degrees_come_back() {
    for d in [0.0, 30.0, 45.0, 60.0, 90.0, 120.0, 180.0_f64] {
        assert_eq!(f64::from_bits(acos_degrees(cos_degrees(d.to_bits(), &fpu), &fpu)), d);
    }
    for d in [-90.0, -30.0, 0.0, 45.0, 60.0_f64] {
        assert_eq!(f64::from_bits(asin_degrees(sin_degrees(d.to_bits(), &fpu), &fpu)), d);
    }
}

//! Points, sizes, transforms and colours.

use fab_lang::geom::{Affine, Affine2, Dims, Rgba, Tri, Vec2, Vec3};
use fab_lang::num::FloatOp;

fn fpu(op: FloatOp, a: u64, b: u64) -> u64 {
    let (x, y) = (f64::from_bits(a), f64::from_bits(b));
    let r = match op {
        FloatOp::Add => x + y,
        FloatOp::Sub => x - y,
        FloatOp::Mul => x * y,
        FloatOp::Div => x / y,
        FloatOp::Rem => x % y,
        FloatOp::Pow => x.powf(y),
        FloatOp::Sqrt => x.sqrt(),
        FloatOp::Floor => x.floor(),
        FloatOp::Sin => x.sin(),
        FloatOp::Cos => x.cos(),
        FloatOp::Tan => x.tan(),
        FloatOp::Asin => x.asin(),
        FloatOp::Acos => x.acos(),
        FloatOp::Atan => x.atan(),
        FloatOp::Atan2 => x.atan2(y),
        FloatOp::Round => x.round(),
        FloatOp::Degrees => x.to_degrees(),
        FloatOp::FromInt => (a as i64) as f64,
        FloatOp::Midpoint => x + (y - x) / 2.0,
    };
    r.to_bits()
}

fn n(x: f64) -> u64 {
    x.to_bits()
}

fn v2(x: f64, y: f64) -> Vec2 {
    Vec2::new(n(x), n(y))
}

fn v3(x: f64, y: f64, z: f64) -> Vec3 {
    Vec3::new(n(x), n(y), n(z))
}

fn d3(x: f64, y: f64, z: f64) -> Dims {
    Dims::new(n(x), n(y), n(z))
}

fn flat3(v: Vec3) -> [f64; 3] {
    v.to_array().map(f64::from_bits)
}

fn flat2(v: Vec2) -> [f64; 2] {
    v.to_array().map(f64::from_bits)
}

fn opaque(r: f64, g: f64, b: f64) -> Rgba {
    Rgba::opaque(n(r), n(g), n(b))
}

fn named(s: &str) -> Option<Rgba> {
    let found = match s.to_lowercase().as_str() {
        "red" => Some((255, 0, 0)),
        _ => None,
    };
    Rgba::from_name(s, found, &fpu)
}

fn hexed(s: &str) -> Option<Rgba> {
    Rgba::from_hex(s, &fpu)
}

#[test]
fn vec2_ops() {
    let a = v2(1.0, 2.0);
    assert_eq!(flat2(a), [1.0, 2.0]);
    assert_eq!(Vec2::from_array([n(3.0), n(4.0)]), v2(3.0, 4.0));
}

#[test]
fn affine2_apply_and_layouts() {
    let rows = [2.0, 0.0, 5.0, 0.0, 1.0, 7.0].map(n);
    let m = Affine2::row_major(rows);
    assert_eq!(flat2(m.apply(v2(3.0, 4.0), &fpu)), [11.0, 11.0]);
    assert_eq!(m.as_row_major(), rows);
    assert_eq!(m.to_column_major(), [2.0, 0.0, 0.0, 1.0, 5.0, 7.0].map(n));
    assert_eq!(flat2(Affine2::identity().apply(v2(9.0, -3.0), &fpu)), [9.0, -3.0]);
}

#[test]
fn vec3_ops() {
    let a = v3(1.0, 2.0, 3.0);
    let b = v3(4.0, 5.0, 6.0);
    assert_eq!(a.add(b, &fpu), v3(5.0, 7.0, 9.0));
    assert_eq!(b.sub(a, &fpu), v3(3.0, 3.0, 3.0));
    assert_eq!(a.mul(n(2.0), &fpu), v3(2.0, 4.0, 6.0));
    assert_eq!(a.neg(), v3(-1.0, -2.0, -3.0));
    assert_eq!(f64::from_bits(a.dot(b, &fpu)), 32.0);
    assert_eq!(flat3(v3(1.0, 0.0, 0.0).cross(v3(0.0, 1.0, 0.0), &fpu)), [0.0, 0.0, 1.0]);
    assert_eq!(f64::from_bits(v3(3.0, 4.0, 0.0).length(&fpu)), 5.0);
    assert_eq!(flat3(Vec3::from_array([1.0, 2.0, 3.0].map(n))), [1.0, 2.0, 3.0]);
    assert_eq!(Vec3::zero(), v3(0.0, 0.0, 0.0));
    assert_eq!([a.index(0), a.index(1), a.index(2)], [1.0, 2.0, 3.0].map(n));
    assert_eq!(flat3(v3(0.0, 0.0, 5.0).normalize(&fpu)), [0.0, 0.0, 1.0]);
    assert_eq!(Vec3::zero().normalize(&fpu), Vec3::zero());
    let right = f64::from_bits(v3(1.0, 0.0, 0.0).angle_deg(v3(0.0, 2.0, 0.0), &fpu));
    assert!((right - 90.0).abs() < 1e-9);
    assert!(f64::from_bits(v3(1.0, 0.0, 0.0).angle_deg(v3(3.0, 0.0, 0.0), &fpu)).abs() < 1e-9);
}

#[test]
fn dims_measurements() {
    let d = d3(10.0, 20.0, 30.0);
    assert_eq!(d.to_array(), [10.0, 20.0, 30.0].map(n));
    assert_eq!(Dims::from_array([1.0, 2.0, 3.0].map(n)), d3(1.0, 2.0, 3.0));
    assert_eq!(f64::from_bits(d.volume(&fpu)), 6000.0);
    assert_eq!([d.index(0), d.index(1), d.index(2)], [10.0, 20.0, 30.0].map(n));
    let (a, b) = (v3(5.0, 0.0, -2.0), v3(1.0, 3.0, 4.0));
    assert_eq!(Dims::from_extent(a, b, &fpu), d3(4.0, 3.0, 6.0));
    assert_eq!(Dims::from_extent(b, a, &fpu), d3(4.0, 3.0, 6.0));
    assert!(d3(10.0, 10.0, 10.0).fits_within(d3(10.0, 20.0, 30.0)));
    assert!(!d3(10.0, 25.0, 10.0).fits_within(d3(10.0, 20.0, 30.0)));
}

#[test]
fn rgba_named_hex_and_alpha() {
    assert_eq!(named("red"), Some(opaque(1.0, 0.0, 0.0)));
    assert_eq!(named("RED"), Some(opaque(1.0, 0.0, 0.0)));
    assert_eq!(named("transparent"), Some(Rgba::new(n(0.0), n(0.0), n(0.0), n(0.0))));
    assert_eq!(named("notacolor"), None);
    assert_eq!(Rgba::from_u8(255, 0, 0, &fpu), opaque(1.0, 0.0, 0.0));
    assert_eq!(Rgba::white().to_array(), [1.0, 1.0, 1.0, 1.0].map(n));
    assert_eq!(hexed("#f80"), hexed("#ff8800"));
    assert_eq!(hexed("#ff0000"), Some(opaque(1.0, 0.0, 0.0)));
    assert_eq!(hexed("#ffff"), hexed("#ffffffff"));
    assert_eq!(f64::from_bits(hexed("#00000080").unwrap().a), 128.0 / 255.0);
    assert!(hexed("#xyz").is_none() && hexed("nope").is_none());
    assert!(hexed("#12345").is_none());
    assert!(hexed("#+1+2+3").is_none());
}

#[test]
fn tri_indices() {
    assert_eq!(Tri::new(0, 1, 2).indices(), [0, 1, 2]);
    assert_eq!(Tri([3, 4, 5]).0, [3, 4, 5]);
}

#[test]
fn affine_apply_and_layouts() {
    let t = Affine::row_major(
        [1.0, 0.0, 0.0, 5.0, 0.0, 1.0, 0.0, 2.0, 0.0, 0.0, 1.0, 9.0].map(n),
    );
    assert_eq!(flat3(t.apply(v3(1.0, 1.0, 1.0), &fpu)), [6.0, 3.0, 10.0]);
    assert_eq!(f64::from_bits(t.as_row_major()[3]), 5.0);
    assert_eq!(
        t.to_column_major(),
        [1.0, 0.0, 0.0, 0.0, 1.0, 0.0, 0.0, 0.0, 1.0, 5.0, 2.0, 9.0].map(n)
    );
    assert_eq!(flat3(Affine::identity().apply(v3(7.0, 8.0, 9.0), &fpu)), [7.0, 8.0, 9.0]);
    let cm = [1.0, 2.0, 3.0, 4.0, 5.0, 6.0, 7.0, 8.0, 9.0, 10.0, 11.0, 12.0].map(n);
    assert_eq!(Affine::from_column_major(cm).to_column_major(), cm);
}

#[test]
fn the_plane_part_of_a_transform() {
    let t = Affine::row_major(
        [1.0, 2.0, 3.0, 4.0, 5.0, 6.0, 7.0, 8.0, 9.0, 10.0, 11.0, 12.0].map(n),
    );
    assert_eq!(Affine2::from_affine3(&t).as_row_major(), [1.0, 2.0, 4.0, 5.0, 6.0, 8.0].map(n));
}

#[test]
fn equality_is_that_of_numbers() {
    let b = |x: f64| x.to_bits();
    let (o, m, nan) = (b(0.0), b(-0.0), b(f64::NAN));
    assert!(Vec3::new(o, m, b(1.0)) == Vec3::new(m, o, b(1.0)));
    assert!(Vec3::new(o, m, b(1.0)) != Vec3::new(m, o, b(2.0)));
    assert!(Vec2::new(nan, o) != Vec2::new(nan, o));
    assert!(Affine([m; 12]) == Affine([o; 12]));
    assert!(Affine2([nan; 6]) != Affine2([nan; 6]));
    assert!(Dims { x: o, y: m, z: o } == Dims { x: m, y: o, z: o });
    assert!(Rgba { r: o, g: o, b: o, a: b(1.0) } != Rgba { r: o, g: o, b: o, a: o });
}

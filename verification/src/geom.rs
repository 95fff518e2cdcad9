//! Points, sizes, transforms and colours. Coordinates are doubles by their bits.

use vstd::prelude::*;
use vstd::std_specs::cmp::PartialEqSpecImpl;

use crate::chars::chars_of;
use crate::num::{
    ask, counts, equal, exact_to, integer, is_finite, is_nan, is_whole, is_zero, law_order_follows_integers, less, mag,
    negate, negated, negative, num_eq, num_lt, size, unit, unit_ok, whole_part, FloatOp, ONE, SIGN, ZERO,
};

verus! {

/// The length below which a vector has no direction.
pub const TINY: u64 = 0x3d71_9799_812d_ea11;

/// Minus one.
pub const MINUS_ONE: u64 = 0xbff0_0000_0000_0000;

/// The largest byte as a number.
pub const FULL: u64 = 0x406f_e000_0000_0000;

/// A number without its sign.
pub open spec fn magnitude(b: u64) -> u64 {
    mag(b) as u64
}

fn abs(b: u64) -> (r: u64)
    ensures
        r == magnitude(b),
{
    if b >= SIGN {
        b - SIGN
    } else {
        b
    }
}

/// A coordinate: a point or a direction.
#[derive(Debug, Clone, Copy)]
pub struct Vec3 {
    pub x: u64,
    pub y: u64,
    pub z: u64,
}

impl PartialEq for Vec3 {
    /// Whether all numbers are equal: both zeros are, and not-a-number equals nothing.
    fn eq(&self, other: &Vec3) -> (r: bool) {
        equal(self.x, other.x) && equal(self.y, other.y) && equal(self.z, other.z)
    }
}

impl PartialEqSpecImpl for Vec3 {
    open spec fn obeys_eq_spec() -> bool {
        true
    }

    open spec fn eq_spec(&self, other: &Vec3) -> bool {
        num_eq(self.x, other.x) && num_eq(self.y, other.y) && num_eq(self.z, other.z)
    }
}

/// The sum of three products.
pub open spec fn dot_of(a: Vec3, b: Vec3, f: spec_fn(FloatOp, u64, u64) -> u64) -> u64 {
    f(
        FloatOp::Add,
        f(FloatOp::Add, f(FloatOp::Mul, a.x, b.x), f(FloatOp::Mul, a.y, b.y)),
        f(FloatOp::Mul, a.z, b.z),
    )
}

/// The difference of two products.
pub open spec fn minor_of(
    a: u64,
    b: u64,
    c: u64,
    d: u64,
    f: spec_fn(FloatOp, u64, u64) -> u64,
) -> u64 {
    f(FloatOp::Sub, f(FloatOp::Mul, a, b), f(FloatOp::Mul, c, d))
}

/// The direction at right angles to two directions.
pub open spec fn cross_of(a: Vec3, b: Vec3, f: spec_fn(FloatOp, u64, u64) -> u64) -> Vec3 {
    Vec3 {
        x: minor_of(a.y, b.z, a.z, b.y, f),
        y: minor_of(a.z, b.x, a.x, b.z, f),
        z: minor_of(a.x, b.y, a.y, b.x, f),
    }
}

/// The sum of two coordinates.
pub open spec fn sum_of(a: Vec3, b: Vec3, f: spec_fn(FloatOp, u64, u64) -> u64) -> Vec3 {
    Vec3 { x: f(FloatOp::Add, a.x, b.x), y: f(FloatOp::Add, a.y, b.y), z: f(FloatOp::Add, a.z, b.z) }
}

/// The difference of two coordinates.
pub open spec fn difference_of(a: Vec3, b: Vec3, f: spec_fn(FloatOp, u64, u64) -> u64) -> Vec3 {
    Vec3 { x: f(FloatOp::Sub, a.x, b.x), y: f(FloatOp::Sub, a.y, b.y), z: f(FloatOp::Sub, a.z, b.z) }
}

/// A coordinate times a number.
pub open spec fn scaled(v: Vec3, s: u64, f: spec_fn(FloatOp, u64, u64) -> u64) -> Vec3 {
    Vec3 { x: f(FloatOp::Mul, v.x, s), y: f(FloatOp::Mul, v.y, s), z: f(FloatOp::Mul, v.z, s) }
}

/// The length of a direction.
pub open spec fn length_of(v: Vec3, f: spec_fn(FloatOp, u64, u64) -> u64) -> u64 {
    f(FloatOp::Sqrt, dot_of(v, v, f), 0)
}

/// A direction of length one; one that is too short stays as it is.
pub open spec fn unit_of(v: Vec3, f: spec_fn(FloatOp, u64, u64) -> u64) -> Vec3 {
    let n = length_of(v, f);
    if num_lt(n, TINY) {
        v
    } else {
        scaled(v, f(FloatOp::Div, ONE, n), f)
    }
}

/// A number held between minus one and one; what is no number stays.
pub open spec fn cosine_of(b: u64) -> u64 {
    if num_lt(b, MINUS_ONE) {
        MINUS_ONE
    } else if num_lt(ONE, b) {
        ONE
    } else {
        b
    }
}

fn minor<F: Fn(FloatOp, u64, u64) -> u64>(a: u64, b: u64, c: u64, d: u64, fpu: &F) -> (r: u64)
    requires
        unit_ok(*fpu),
    ensures
        r == minor_of(a, b, c, d, unit(*fpu)),
{
    ask(fpu, FloatOp::Sub, ask(fpu, FloatOp::Mul, a, b), ask(fpu, FloatOp::Mul, c, d))
}

impl Vec3 {
    /// The origin.
    pub fn zero() -> (r: Vec3)
        ensures
            r == (Vec3 { x: ZERO, y: ZERO, z: ZERO }),
    {
        Vec3 { x: ZERO, y: ZERO, z: ZERO }
    }

    /// A coordinate from its components.
    pub fn new(x: u64, y: u64, z: u64) -> (r: Vec3)
        ensures
            r == (Vec3 { x, y, z }),
    {
        Vec3 { x, y, z }
    }

    /// A coordinate from an array.
    pub fn from_array(a: [u64; 3]) -> (r: Vec3)
        ensures
            r == (Vec3 { x: a[0], y: a[1], z: a[2] }),
    {
        Vec3 { x: a[0], y: a[1], z: a[2] }
    }

    /// The components as an array.
    pub fn to_array(self) -> (r: [u64; 3])
        ensures
            r@ == seq![self.x, self.y, self.z],
    {
        let r: [u64; 3] = [self.x, self.y, self.z];
        assert(r@ =~= seq![self.x, self.y, self.z]);
        r
    }

    /// The dot product.
    pub fn dot<F: Fn(FloatOp, u64, u64) -> u64>(self, o: Vec3, fpu: &F) -> (r: u64)
        requires
            unit_ok(*fpu),
        ensures
            r == dot_of(self, o, unit(*fpu)),
    {
        let xy: u64 = ask(
            fpu,
            FloatOp::Add,
            ask(fpu, FloatOp::Mul, self.x, o.x),
            ask(fpu, FloatOp::Mul, self.y, o.y),
        );
        ask(fpu, FloatOp::Add, xy, ask(fpu, FloatOp::Mul, self.z, o.z))
    }

    /// The cross product.
    pub fn cross<F: Fn(FloatOp, u64, u64) -> u64>(self, o: Vec3, fpu: &F) -> (r: Vec3)
        requires
            unit_ok(*fpu),
        ensures
            r == cross_of(self, o, unit(*fpu)),
    {
        Vec3 {
            x: minor(self.y, o.z, self.z, o.y, fpu),
            y: minor(self.z, o.x, self.x, o.z, fpu),
            z: minor(self.x, o.y, self.y, o.x, fpu),
        }
    }

    /// The length.
    pub fn length<F: Fn(FloatOp, u64, u64) -> u64>(self, fpu: &F) -> (r: u64)
        requires
            unit_ok(*fpu),
        ensures
            r == length_of(self, unit(*fpu)),
    {
        ask(fpu, FloatOp::Sqrt, self.dot(self, fpu), 0)
    }

    /// The direction with length one; one that is almost zero stays as it is.
    pub fn normalize<F: Fn(FloatOp, u64, u64) -> u64>(self, fpu: &F) -> (r: Vec3)
        requires
            unit_ok(*fpu),
        ensures
            r == unit_of(self, unit(*fpu)),
    {
        let n: u64 = self.length(fpu);
        if less(n, TINY) {
            self
        } else {
            self.mul(ask(fpu, FloatOp::Div, ONE, n), fpu)
        }
    }

    /// The angle to another direction, in degrees.
    pub fn angle_deg<F: Fn(FloatOp, u64, u64) -> u64>(self, other: Vec3, fpu: &F) -> (r: u64)
        requires
            unit_ok(*fpu),
        ensures
            ({
                let f = unit(*fpu);
                let c = cosine_of(dot_of(unit_of(self, f), unit_of(other, f), f));
                r == f(FloatOp::Degrees, f(FloatOp::Acos, c, 0), 0)
            }),
    {
        let a: Vec3 = self.normalize(fpu);
        let b: Vec3 = other.normalize(fpu);
        let d: u64 = a.dot(b, fpu);
        let c: u64 = if less(d, MINUS_ONE) {
            MINUS_ONE
        } else if less(ONE, d) {
            ONE
        } else {
            d
        };
        ask(fpu, FloatOp::Degrees, ask(fpu, FloatOp::Acos, c, 0), 0)
    }

    /// The sum.
    pub fn add<F: Fn(FloatOp, u64, u64) -> u64>(self, o: Vec3, fpu: &F) -> (r: Vec3)
        requires
            unit_ok(*fpu),
        ensures
            r == sum_of(self, o, unit(*fpu)),
    {
        Vec3 {
            x: ask(fpu, FloatOp::Add, self.x, o.x),
            y: ask(fpu, FloatOp::Add, self.y, o.y),
            z: ask(fpu, FloatOp::Add, self.z, o.z),
        }
    }

    /// The difference.
    pub fn sub<F: Fn(FloatOp, u64, u64) -> u64>(self, o: Vec3, fpu: &F) -> (r: Vec3)
        requires
            unit_ok(*fpu),
        ensures
            r == difference_of(self, o, unit(*fpu)),
    {
        Vec3 {
            x: ask(fpu, FloatOp::Sub, self.x, o.x),
            y: ask(fpu, FloatOp::Sub, self.y, o.y),
            z: ask(fpu, FloatOp::Sub, self.z, o.z),
        }
    }

    /// The product with a number.
    pub fn mul<F: Fn(FloatOp, u64, u64) -> u64>(self, s: u64, fpu: &F) -> (r: Vec3)
        requires
            unit_ok(*fpu),
        ensures
            r == scaled(self, s, unit(*fpu)),
    {
        Vec3 {
            x: ask(fpu, FloatOp::Mul, self.x, s),
            y: ask(fpu, FloatOp::Mul, self.y, s),
            z: ask(fpu, FloatOp::Mul, self.z, s),
        }
    }

    /// The opposite.
    pub fn neg(self) -> (r: Vec3)
        ensures
            r == (Vec3 { x: negated(self.x), y: negated(self.y), z: negated(self.z) }),
    {
        Vec3 { x: negate(self.x), y: negate(self.y), z: negate(self.z) }
    }

    /// The component of an axis.
    pub fn index(&self, i: usize) -> (r: u64)
        requires
            i < 3,
        ensures
            r == seq![self.x, self.y, self.z][i as int],
    {
        self.to_array()[i]
    }
}

/// A coordinate in the plane.
#[derive(Debug, Clone, Copy)]
pub struct Vec2 {
    pub x: u64,
    pub y: u64,
}

impl PartialEq for Vec2 {
    /// Whether all numbers are equal: both zeros are, and not-a-number equals nothing.
    fn eq(&self, other: &Vec2) -> (r: bool) {
        equal(self.x, other.x) && equal(self.y, other.y)
    }
}

impl PartialEqSpecImpl for Vec2 {
    open spec fn obeys_eq_spec() -> bool {
        true
    }

    open spec fn eq_spec(&self, other: &Vec2) -> bool {
        num_eq(self.x, other.x) && num_eq(self.y, other.y)
    }
}

impl Vec2 {
    /// A coordinate from its components.
    pub fn new(x: u64, y: u64) -> (r: Vec2)
        ensures
            r == (Vec2 { x, y }),
    {
        Vec2 { x, y }
    }

    /// A coordinate from an array.
    pub fn from_array(a: [u64; 2]) -> (r: Vec2)
        ensures
            r == (Vec2 { x: a[0], y: a[1] }),
    {
        Vec2 { x: a[0], y: a[1] }
    }

    /// The components as an array.
    pub fn to_array(self) -> (r: [u64; 2])
        ensures
            r@ == seq![self.x, self.y],
    {
        let r: [u64; 2] = [self.x, self.y];
        assert(r@ =~= seq![self.x, self.y]);
        r
    }
}

/// A triangle: three places in a list of vertices, in winding order.
#[derive(Debug, Clone, Copy, PartialEq, Eq)]
pub struct Tri(pub [u32; 3]);

impl Tri {
    /// A triangle from its three places.
    pub fn new(a: u32, b: u32, c: u32) -> (r: Tri)
        ensures
            r.0@ == seq![a, b, c],
    {
        let r: [u32; 3] = [a, b, c];
        assert(r@ =~= seq![a, b, c]);
        Tri(r)
    }

    /// The three places.
    pub fn indices(self) -> (r: [u32; 3])
        ensures
            r == self.0,
    {
        self.0
    }
}

/// A transform of space: three rows of four numbers, the last of each row the translation.
#[derive(Debug, Clone, Copy)]
pub struct Affine(pub [u64; 12]);

impl PartialEq for Affine {
    /// Whether all numbers are equal: both zeros are, and not-a-number equals nothing.
    fn eq(&self, other: &Affine) -> (r: bool) {
        let mut i: usize = 0;
        while i < 12
            invariant
                i <= 12,
                forall|k: int| 0 <= k < i ==> num_eq(#[trigger] self.0@[k], other.0@[k]),
            decreases 12 - i,
        {
            if !equal(self.0[i], other.0[i]) {
                assert(!num_eq(self.0@[i as int], other.0@[i as int]));
                return false;
            }
            i += 1;
        }
        true
    }
}

impl PartialEqSpecImpl for Affine {
    open spec fn obeys_eq_spec() -> bool {
        true
    }

    open spec fn eq_spec(&self, other: &Affine) -> bool {
        forall|k: int| 0 <= k < 12 ==> num_eq(#[trigger] self.0@[k], other.0@[k])
    }
}

/// The places of the numbers of a row-major transform in its column-major layout.
pub open spec fn column_place(i: int) -> int {
    (i % 3) * 4 + i / 3
}

/// A row of a transform at a coordinate.
pub open spec fn row_at(
    m: Seq<u64>,
    at: int,
    v: Vec3,
    f: spec_fn(FloatOp, u64, u64) -> u64,
) -> u64 {
    f(
        FloatOp::Add,
        dot_of(Vec3 { x: m[at], y: m[at + 1], z: m[at + 2] }, v, f),
        m[at + 3],
    )
}

/// A coordinate transformed.
pub open spec fn transformed(m: Seq<u64>, v: Vec3, f: spec_fn(FloatOp, u64, u64) -> u64) -> Vec3 {
    Vec3 { x: row_at(m, 0, v, f), y: row_at(m, 4, v, f), z: row_at(m, 8, v, f) }
}

impl Affine {
    /// The transform that changes nothing.
    pub fn identity() -> (r: Affine)
        ensures
            r.0@ == Seq::new(
                12,
                |i: int|
                    if i % 5 == 0 {
                        ONE
                    } else {
                        ZERO
                    },
            ),
    {
        let m: [u64; 12] = [
            ONE, ZERO, ZERO, ZERO, ZERO, ONE, ZERO, ZERO, ZERO, ZERO, ONE, ZERO,
        ];
        assert(m@ =~= Seq::new(
            12,
            |i: int|
                if i % 5 == 0 {
                    ONE
                } else {
                    ZERO
                },
        ));
        Affine(m)
    }

    /// A transform from its rows.
    pub fn row_major(m: [u64; 12]) -> (r: Affine)
        ensures
            r.0 == m,
    {
        Affine(m)
    }

    /// A transform from its columns.
    pub fn from_column_major(c: [u64; 12]) -> (r: Affine)
        ensures
            forall|i: int| 0 <= i < 12 ==> r.0@[column_place(i)] == #[trigger] c@[i],
    {
        let m: [u64; 12] = [
            c[0], c[3], c[6], c[9], c[1], c[4], c[7], c[10], c[2], c[5], c[8], c[11],
        ];
        assert(m@[0] == c@[0] && m@[1] == c@[3] && m@[2] == c@[6] && m@[3] == c@[9]);
        assert(m@[4] == c@[1] && m@[5] == c@[4] && m@[6] == c@[7] && m@[7] == c@[10]);
        assert(m@[8] == c@[2] && m@[9] == c@[5] && m@[10] == c@[8] && m@[11] == c@[11]);
        Affine(m)
    }

    /// The rows.
    pub fn as_row_major(&self) -> (r: [u64; 12])
        ensures
            r == self.0,
    {
        self.0
    }

    /// The columns.
    pub fn to_column_major(&self) -> (r: [u64; 12])
        ensures
            forall|i: int| 0 <= i < 12 ==> #[trigger] r@[i] == self.0@[column_place(i)],
    {
        let m: [u64; 12] = self.0;
        let r: [u64; 12] = [
            m[0], m[4], m[8], m[1], m[5], m[9], m[2], m[6], m[10], m[3], m[7], m[11],
        ];
        assert(r@[0] == m@[0] && r@[1] == m@[4] && r@[2] == m@[8] && r@[3] == m@[1]);
        assert(r@[4] == m@[5] && r@[5] == m@[9] && r@[6] == m@[2] && r@[7] == m@[6]);
        assert(r@[8] == m@[10] && r@[9] == m@[3] && r@[10] == m@[7] && r@[11] == m@[11]);
        r
    }

    fn row<F: Fn(FloatOp, u64, u64) -> u64>(&self, at: usize, v: Vec3, fpu: &F) -> (r: u64)
        requires
            unit_ok(*fpu),
            at <= 8,
        ensures
            r == row_at(self.0@, at as int, v, unit(*fpu)),
    {
        let m: Vec3 = Vec3 { x: self.0[at], y: self.0[at + 1], z: self.0[at + 2] };
        ask(fpu, FloatOp::Add, m.dot(v, fpu), self.0[at + 3])
    }

    /// A coordinate transformed.
    pub fn apply<F: Fn(FloatOp, u64, u64) -> u64>(&self, v: Vec3, fpu: &F) -> (r: Vec3)
        requires
            unit_ok(*fpu),
        ensures
            r == transformed(self.0@, v, unit(*fpu)),
    {
        Vec3 { x: self.row(0, v, fpu), y: self.row(4, v, fpu), z: self.row(8, v, fpu) }
    }
}

/// The two layouts of a transform undo each other: numbers that are read by columns and written by
/// columns again are the same numbers.
pub proof fn law_layouts_undo_each_other(c: Seq<u64>, m: Seq<u64>, r: Seq<u64>)
    requires
        c.len() == 12,
        r.len() == 12,
        forall|i: int| 0 <= i < 12 ==> m[column_place(i)] == #[trigger] c[i],
        forall|i: int| 0 <= i < 12 ==> #[trigger] r[i] == m[column_place(i)],
    ensures
        r == c,
{
    assert forall|i: int| 0 <= i < 12 implies r[i] == c[i] by {
        assert(r[i] == m[column_place(i)]);
        assert(m[column_place(i)] == c[i]);
    }
    assert(r =~= c);
}

/// A transform of the plane: two rows of three numbers, the last of each row the translation.
#[derive(Debug, Clone, Copy)]
pub struct Affine2(pub [u64; 6]);

impl PartialEq for Affine2 {
    /// Whether all numbers are equal: both zeros are, and not-a-number equals nothing.
    fn eq(&self, other: &Affine2) -> (r: bool) {
        let mut i: usize = 0;
        while i < 6
            invariant
                i <= 6,
                forall|k: int| 0 <= k < i ==> num_eq(#[trigger] self.0@[k], other.0@[k]),
            decreases 6 - i,
        {
            if !equal(self.0[i], other.0[i]) {
                assert(!num_eq(self.0@[i as int], other.0@[i as int]));
                return false;
            }
            i += 1;
        }
        true
    }
}

impl PartialEqSpecImpl for Affine2 {
    open spec fn obeys_eq_spec() -> bool {
        true
    }

    open spec fn eq_spec(&self, other: &Affine2) -> bool {
        forall|k: int| 0 <= k < 6 ==> num_eq(#[trigger] self.0@[k], other.0@[k])
    }
}

/// A row of a transform of the plane at a coordinate.
pub open spec fn row2_at(m: Seq<u64>, at: int, v: Vec2, f: spec_fn(FloatOp, u64, u64) -> u64) -> u64 {
    f(
        FloatOp::Add,
        f(FloatOp::Add, f(FloatOp::Mul, m[at], v.x), f(FloatOp::Mul, m[at + 1], v.y)),
        m[at + 2],
    )
}

/// A coordinate of the plane transformed.
pub open spec fn transformed2(m: Seq<u64>, v: Vec2, f: spec_fn(FloatOp, u64, u64) -> u64) -> Vec2 {
    Vec2 { x: row2_at(m, 0, v, f), y: row2_at(m, 3, v, f) }
}

impl Affine2 {
    /// The transform that changes nothing.
    pub fn identity() -> (r: Affine2)
        ensures
            r.0@ == seq![ONE, ZERO, ZERO, ZERO, ONE, ZERO],
    {
        let m: [u64; 6] = [ONE, ZERO, ZERO, ZERO, ONE, ZERO];
        assert(m@ =~= seq![ONE, ZERO, ZERO, ZERO, ONE, ZERO]);
        Affine2(m)
    }

    /// A transform from its rows.
    pub fn row_major(m: [u64; 6]) -> (r: Affine2)
        ensures
            r.0 == m,
    {
        Affine2(m)
    }

    /// What a transform of space does in the plane.
    pub fn from_affine3(a: &Affine) -> (r: Affine2)
        ensures
            r.0@ == seq![a.0@[0], a.0@[1], a.0@[3], a.0@[4], a.0@[5], a.0@[7]],
            acts_in_the_plane(a.0@, r.0@),
    {
        proof {
            lemma_acts_in_the_plane(a.0@);
        }
        let m: [u64; 6] = [a.0[0], a.0[1], a.0[3], a.0[4], a.0[5], a.0[7]];
        assert(m@ =~= seq![a.0@[0], a.0@[1], a.0@[3], a.0@[4], a.0@[5], a.0@[7]]);
        Affine2(m)
    }

    /// The rows.
    pub fn as_row_major(&self) -> (r: [u64; 6])
        ensures
            r == self.0,
    {
        self.0
    }

    /// The columns.
    pub fn to_column_major(&self) -> (r: [u64; 6])
        ensures
            r@ == seq![
                self.0@[0],
                self.0@[3],
                self.0@[1],
                self.0@[4],
                self.0@[2],
                self.0@[5],
            ],
    {
        let r: [u64; 6] = [self.0[0], self.0[3], self.0[1], self.0[4], self.0[2], self.0[5]];
        assert(r@ =~= seq![
            self.0@[0],
            self.0@[3],
            self.0@[1],
            self.0@[4],
            self.0@[2],
            self.0@[5],
        ]);
        r
    }

    fn row<F: Fn(FloatOp, u64, u64) -> u64>(&self, at: usize, v: Vec2, fpu: &F) -> (r: u64)
        requires
            unit_ok(*fpu),
            at <= 3,
        ensures
            r == row2_at(self.0@, at as int, v, unit(*fpu)),
    {
        let xy: u64 = ask(
            fpu,
            FloatOp::Add,
            ask(fpu, FloatOp::Mul, self.0[at], v.x),
            ask(fpu, FloatOp::Mul, self.0[at + 1], v.y),
        );
        ask(fpu, FloatOp::Add, xy, self.0[at + 2])
    }

    /// A coordinate transformed.
    pub fn apply<F: Fn(FloatOp, u64, u64) -> u64>(&self, v: Vec2, fpu: &F) -> (r: Vec2)
        requires
            unit_ok(*fpu),
        ensures
            r == transformed2(self.0@, v, unit(*fpu)),
    {
        Vec2 { x: self.row(0, v, fpu), y: self.row(3, v, fpu) }
    }
}

/// A size along three axes.
#[derive(Debug, Clone, Copy)]
pub struct Dims {
    pub x: u64,
    pub y: u64,
    pub z: u64,
}

impl PartialEq for Dims {
    /// Whether all numbers are equal: both zeros are, and not-a-number equals nothing.
    fn eq(&self, other: &Dims) -> (r: bool) {
        equal(self.x, other.x) && equal(self.y, other.y) && equal(self.z, other.z)
    }
}

impl PartialEqSpecImpl for Dims {
    open spec fn obeys_eq_spec() -> bool {
        true
    }

    open spec fn eq_spec(&self, other: &Dims) -> bool {
        num_eq(self.x, other.x) && num_eq(self.y, other.y) && num_eq(self.z, other.z)
    }
}

/// The distance of two numbers.
pub open spec fn gap_of(a: u64, b: u64, f: spec_fn(FloatOp, u64, u64) -> u64) -> u64 {
    magnitude(f(FloatOp::Sub, b, a))
}

/// Whether a number is at most another.
pub open spec fn num_le(a: u64, b: u64) -> bool {
    num_lt(a, b) || crate::num::num_eq(a, b)
}

fn at_most(a: u64, b: u64) -> (r: bool)
    ensures
        r == num_le(a, b),
{
    less(a, b) || crate::num::equal(a, b)
}

impl Dims {
    /// A size from its extents.
    pub fn new(x: u64, y: u64, z: u64) -> (r: Dims)
        ensures
            r == (Dims { x, y, z }),
    {
        Dims { x, y, z }
    }

    /// A size from an array.
    pub fn from_array(a: [u64; 3]) -> (r: Dims)
        ensures
            r == (Dims { x: a[0], y: a[1], z: a[2] }),
    {
        Dims { x: a[0], y: a[1], z: a[2] }
    }

    /// The extents as an array.
    pub fn to_array(self) -> (r: [u64; 3])
        ensures
            r@ == seq![self.x, self.y, self.z],
    {
        let r: [u64; 3] = [self.x, self.y, self.z];
        assert(r@ =~= seq![self.x, self.y, self.z]);
        r
    }

    /// The size of the box between two corners.
    pub fn from_extent<F: Fn(FloatOp, u64, u64) -> u64>(a: Vec3, b: Vec3, fpu: &F) -> (r: Dims)
        requires
            unit_ok(*fpu),
        ensures
            r == (Dims {
                x: gap_of(a.x, b.x, unit(*fpu)),
                y: gap_of(a.y, b.y, unit(*fpu)),
                z: gap_of(a.z, b.z, unit(*fpu)),
            }),
    {
        Dims {
            x: abs(ask(fpu, FloatOp::Sub, b.x, a.x)),
            y: abs(ask(fpu, FloatOp::Sub, b.y, a.y)),
            z: abs(ask(fpu, FloatOp::Sub, b.z, a.z)),
        }
    }

    /// Whether the size fits into another along every axis.
    pub fn fits_within(self, bed: Dims) -> (r: bool)
        ensures
            r == (num_le(self.x, bed.x) && num_le(self.y, bed.y) && num_le(self.z, bed.z)),
    {
        at_most(self.x, bed.x) && at_most(self.y, bed.y) && at_most(self.z, bed.z)
    }

    /// The volume of the box.
    pub fn volume<F: Fn(FloatOp, u64, u64) -> u64>(self, fpu: &F) -> (r: u64)
        requires
            unit_ok(*fpu),
        ensures
            ({
                let f = unit(*fpu);
                r == f(FloatOp::Mul, f(FloatOp::Mul, self.x, self.y), self.z)
            }),
    {
        ask(fpu, FloatOp::Mul, ask(fpu, FloatOp::Mul, self.x, self.y), self.z)
    }

    /// The extent of an axis.
    pub fn index(&self, i: usize) -> (r: u64)
        requires
            i < 3,
        ensures
            r == seq![self.x, self.y, self.z][i as int],
    {
        self.to_array()[i]
    }
}

/// A colour: red, green, blue and how opaque it is.
#[derive(Debug, Clone, Copy)]
pub struct Rgba {
    pub r: u64,
    pub g: u64,
    pub b: u64,
    pub a: u64,
}

impl PartialEq for Rgba {
    /// Whether all numbers are equal: both zeros are, and not-a-number equals nothing.
    fn eq(&self, other: &Rgba) -> (r: bool) {
        equal(self.r, other.r) && equal(self.g, other.g) && equal(self.b, other.b) && equal(self.a, other.a)
    }
}

impl PartialEqSpecImpl for Rgba {
    open spec fn obeys_eq_spec() -> bool {
        true
    }

    open spec fn eq_spec(&self, other: &Rgba) -> bool {
        num_eq(self.r, other.r) && num_eq(self.g, other.g) && num_eq(self.b, other.b) && num_eq(self.a, other.a)
    }
}

/// A byte as a share of the largest one.
pub open spec fn share_of(v: u8, f: spec_fn(FloatOp, u64, u64) -> u64) -> u64 {
    f(FloatOp::Div, f(FloatOp::FromInt, v as u64, 0), FULL)
}

fn share<F: Fn(FloatOp, u64, u64) -> u64>(v: u8, fpu: &F) -> (r: u64)
    requires
        unit_ok(*fpu),
    ensures
        r == share_of(v, unit(*fpu)),
{
    ask(fpu, FloatOp::Div, ask(fpu, FloatOp::FromInt, v as u64, 0), FULL)
}

/// The code of a letter of the alphabet in lower case; any other code stays.
pub open spec fn low_code(c: char) -> int {
    if 'A' <= c && c <= 'Z' {
        c as int + 32
    } else {
        c as int
    }
}

fn code(c: char) -> (r: u32)
    ensures
        r == low_code(c),
{
    if 'A' <= c && c <= 'Z' {
        c as u32 + 32
    } else {
        c as u32
    }
}

/// Whether two texts differ in case alone, in the letters of the alphabet.
pub open spec fn same_letters(a: Seq<char>, b: Seq<char>) -> bool {
    a.len() == b.len() && forall|i: int|
        0 <= i < a.len() ==> low_code(#[trigger] a[i]) == low_code(b[i])
}

/// Whether two texts differ in case alone.
pub fn letters_match(a: &str, b: &str) -> (r: bool)
    ensures
        r == same_letters(a@, b@),
{
    let x: Vec<char> = chars_of(a);
    let y: Vec<char> = chars_of(b);
    if x.len() != y.len() {
        return false;
    }
    let mut i: usize = 0;
    while i < x.len()
        invariant
            i <= x@.len(),
            x@ == a@,
            y@ == b@,
            x@.len() == y@.len(),
            forall|k: int| 0 <= k < i ==> low_code(#[trigger] a@[k]) == low_code(b@[k]),
        decreases x@.len() - i,
    {
        if code(x[i]) != code(y[i]) {
            assert(low_code(a@[i as int]) != low_code(b@[i as int]));
            return false;
        }
        i += 1;
    }
    true
}

/// The value of a hexadecimal digit.
pub open spec fn hex_digit(c: char) -> Option<int> {
    if '0' <= c && c <= '9' {
        Some(c as int - '0' as int)
    } else if 'a' <= c && c <= 'f' {
        Some(c as int - 'a' as int + 10)
    } else if 'A' <= c && c <= 'F' {
        Some(c as int - 'A' as int + 10)
    } else {
        None
    }
}

fn hex_value(c: char) -> (r: Option<u8>)
    ensures
        match r {
            Some(v) => hex_digit(c) == Some(v as int) && v < 16,
            None => hex_digit(c) is None,
        },
{
    if '0' <= c && c <= '9' {
        Some((c as u32 - '0' as u32) as u8)
    } else if 'a' <= c && c <= 'f' {
        Some((c as u32 - 'a' as u32 + 10) as u8)
    } else if 'A' <= c && c <= 'F' {
        Some((c as u32 - 'A' as u32 + 10) as u8)
    } else {
        None
    }
}

/// One hexadecimal digit as a byte: the digit twice.
pub open spec fn nibble_at(h: Seq<char>, i: int) -> Option<u8> {
    match hex_digit(h[i]) {
        Some(v) => Some((v * 17) as u8),
        None => None,
    }
}

/// Two hexadecimal digits as a byte.
pub open spec fn byte_at(h: Seq<char>, i: int) -> Option<u8> {
    match (hex_digit(h[i]), hex_digit(h[i + 1])) {
        (Some(v), Some(w)) => Some((v * 16 + w) as u8),
        _ => None,
    }
}

fn nibble(h: &Vec<char>, i: usize) -> (r: Option<u8>)
    requires
        i < h@.len(),
    ensures
        r == nibble_at(h@, i as int),
{
    match hex_value(h[i]) {
        Some(v) => Some(v * 17),
        None => None,
    }
}

fn byte(h: &Vec<char>, i: usize) -> (r: Option<u8>)
    requires
        i + 1 < h@.len(),
    ensures
        r == byte_at(h@, i as int),
{
    let n: usize = h.len();
    assert(i + 1 < n);
    match (hex_value(h[i]), hex_value(h[i + 1])) {
        (Some(v), Some(w)) => Some(v * 16 + w),
        _ => None,
    }
}

/// The four bytes of a colour in hexadecimal digits after a `#`: one digit or two for each channel,
/// with or without how opaque it is.
pub open spec fn hex_bytes(s: Seq<char>) -> Option<(u8, u8, u8, u8)> {
    if s.len() == 0 || s[0] != '#' {
        None
    } else {
        let four = if s.len() == 4 {
            (nibble_at(s, 1), nibble_at(s, 2), nibble_at(s, 3), Some(255u8))
        } else if s.len() == 5 {
            (nibble_at(s, 1), nibble_at(s, 2), nibble_at(s, 3), nibble_at(s, 4))
        } else if s.len() == 7 {
            (byte_at(s, 1), byte_at(s, 3), byte_at(s, 5), Some(255u8))
        } else if s.len() == 9 {
            (byte_at(s, 1), byte_at(s, 3), byte_at(s, 5), byte_at(s, 7))
        } else {
            (None, None, None, None)
        };
        match four {
            (Some(r), Some(g), Some(b), Some(a)) => Some((r, g, b, a)),
            _ => None,
        }
    }
}

impl Rgba {
    /// Opaque white.
    pub fn white() -> (r: Rgba)
        ensures
            r == (Rgba { r: ONE, g: ONE, b: ONE, a: ONE }),
    {
        Rgba { r: ONE, g: ONE, b: ONE, a: ONE }
    }

    /// A colour from its channels.
    pub fn new(r: u64, g: u64, b: u64, a: u64) -> (c: Rgba)
        ensures
            c == (Rgba { r, g, b, a }),
    {
        Rgba { r, g, b, a }
    }

    /// An opaque colour.
    pub fn opaque(r: u64, g: u64, b: u64) -> (c: Rgba)
        ensures
            c == (Rgba { r, g, b, a: ONE }),
    {
        Rgba { r, g, b, a: ONE }
    }

    /// The channels as an array.
    pub fn to_array(self) -> (c: [u64; 4])
        ensures
            c@ == seq![self.r, self.g, self.b, self.a],
    {
        let c: [u64; 4] = [self.r, self.g, self.b, self.a];
        assert(c@ =~= seq![self.r, self.g, self.b, self.a]);
        c
    }

    /// An opaque colour from bytes.
    pub fn from_u8<F: Fn(FloatOp, u64, u64) -> u64>(r: u8, g: u8, b: u8, fpu: &F) -> (c: Rgba)
        requires
            unit_ok(*fpu),
        ensures
            c == (Rgba {
                r: share_of(r, unit(*fpu)),
                g: share_of(g, unit(*fpu)),
                b: share_of(b, unit(*fpu)),
                a: ONE,
            }),
    {
        Rgba { r: share(r, fpu), g: share(g, fpu), b: share(b, fpu), a: ONE }
    }

    /// The colour of a name: nothing at all for `transparent`, else what the table of names has
    /// for it.
    pub fn from_name<F: Fn(FloatOp, u64, u64) -> u64>(
        name: &str,
        found: Option<(u8, u8, u8)>,
        fpu: &F,
    ) -> (c: Option<Rgba>)
        requires
            unit_ok(*fpu),
        ensures
            c == if same_letters(name@, "transparent"@) {
                Some(Rgba { r: ZERO, g: ZERO, b: ZERO, a: ZERO })
            } else {
                match found {
                    Some((r, g, b)) => Some(
                        Rgba {
                            r: share_of(r, unit(*fpu)),
                            g: share_of(g, unit(*fpu)),
                            b: share_of(b, unit(*fpu)),
                            a: ONE,
                        },
                    ),
                    None => None,
                }
            },
    {
        if letters_match(name, "transparent") {
            return Some(Rgba { r: ZERO, g: ZERO, b: ZERO, a: ZERO });
        }
        match found {
            Some((r, g, b)) => Some(Rgba::from_u8(r, g, b, fpu)),
            None => None,
        }
    }

    /// The colour that a text of hexadecimal digits after a `#` gives, where it is one.
    pub fn from_hex<F: Fn(FloatOp, u64, u64) -> u64>(s: &str, fpu: &F) -> (c: Option<Rgba>)
        requires
            unit_ok(*fpu),
        ensures
            c == match hex_bytes(s@) {
                Some((r, g, b, a)) => Some(
                    Rgba {
                        r: share_of(r, unit(*fpu)),
                        g: share_of(g, unit(*fpu)),
                        b: share_of(b, unit(*fpu)),
                        a: share_of(a, unit(*fpu)),
                    },
                ),
                None => None,
            },
    {
        let h: Vec<char> = chars_of(s);
        if h.len() == 0 || h[0] != '#' {
            return None;
        }
        let n: usize = h.len();
        let four: (Option<u8>, Option<u8>, Option<u8>, Option<u8>) = if n == 4 {
            (nibble(&h, 1), nibble(&h, 2), nibble(&h, 3), Some(255u8))
        } else if n == 5 {
            (nibble(&h, 1), nibble(&h, 2), nibble(&h, 3), nibble(&h, 4))
        } else if n == 7 {
            (byte(&h, 1), byte(&h, 3), byte(&h, 5), Some(255u8))
        } else if n == 9 {
            (byte(&h, 1), byte(&h, 3), byte(&h, 5), byte(&h, 7))
        } else {
            (None, None, None, None)
        };
        match four {
            (Some(r), Some(g), Some(b), Some(a)) => Some(
                Rgba { r: share(r, fpu), g: share(g, fpu), b: share(b, fpu), a: share(a, fpu) },
            ),
            _ => None,
        }
    }
}

/// A digit for each channel is the same colour as that digit twice.
pub proof fn law_short_hex_doubles_digits(a: char, b: char, c: char)
    ensures
        hex_bytes(seq!['#', a, b, c]) == hex_bytes(seq!['#', a, a, b, b, c, c]),
{
    let s = seq!['#', a, b, c];
    let l = seq!['#', a, a, b, b, c, c];
    assert(s.len() == 4 && l.len() == 7);
    assert(s[1] == a && s[2] == b && s[3] == c);
    assert(l[1] == a && l[2] == a && l[3] == b && l[4] == b && l[5] == c && l[6] == c);
}

/// Whether a coordinate has given integers as its components.
pub open spec fn at_integers(v: Vec3, x: int, y: int, z: int) -> bool {
    counts(v.x, x) && counts(v.y, y) && counts(v.z, z)
}

/// Where the float unit is exact, sums, differences and the dot product of coordinates are those of their
/// components.
pub proof fn law_vectors(
    a: Vec3,
    b: Vec3,
    p: (int, int, int),
    q: (int, int, int),
    bound: int,
    f: spec_fn(FloatOp, u64, u64) -> u64,
)
    requires
        exact_to(f, bound),
        at_integers(a, p.0, p.1, p.2),
        at_integers(b, q.0, q.1, q.2),
    ensures
        size(p.0) + size(q.0) <= bound && size(p.1) + size(q.1) <= bound && size(p.2) + size(q.2) <= bound
            ==> at_integers(sum_of(a, b, f), p.0 + q.0, p.1 + q.1, p.2 + q.2) && at_integers(
            difference_of(a, b, f),
            p.0 - q.0,
            p.1 - q.1,
            p.2 - q.2,
        ),
        size(p.0 * q.0) + size(p.1 * q.1) + size(p.2 * q.2) <= bound ==> counts(
            dot_of(a, b, f),
            p.0 * q.0 + p.1 * q.1 + p.2 * q.2,
        ),
        length_of(a, f) == f(FloatOp::Sqrt, dot_of(a, a, f), 0),
{
    let x = f(FloatOp::Mul, a.x, b.x);
    let y = f(FloatOp::Mul, a.y, b.y);
    let z = f(FloatOp::Mul, a.z, b.z);
    if size(p.0 * q.0) + size(p.1 * q.1) + size(p.2 * q.2) <= bound {
        assert(counts(x, p.0 * q.0) && counts(y, p.1 * q.1) && counts(z, p.2 * q.2));
        let xy = f(FloatOp::Add, x, y);
        assert(counts(xy, p.0 * q.0 + p.1 * q.1));
    }
}

/// Where the float unit is exact, the cross product of two directions is at right angles to both of them, and
/// turns about when they are exchanged.
pub proof fn law_cross_product(
    a: Vec3,
    b: Vec3,
    p: (int, int, int),
    q: (int, int, int),
    bound: int,
    f: spec_fn(FloatOp, u64, u64) -> u64,
)
    requires
        exact_to(f, bound),
        at_integers(a, p.0, p.1, p.2),
        at_integers(b, q.0, q.1, q.2),
        size(p.1 * q.2) + size(p.2 * q.1) <= bound,
        size(p.2 * q.0) + size(p.0 * q.2) <= bound,
        size(p.0 * q.1) + size(p.1 * q.0) <= bound,
    ensures
        exists|x: int, y: int, z: int| #[trigger]
            at_integers(cross_of(a, b, f), x, y, z) && p.0 * x + p.1 * y + p.2 * z == 0 && q.0 * x + q.1 * y + q.2
                * z == 0 && at_integers(cross_of(b, a, f), -x, -y, -z) && z == p.0 * q.1 - p.1 * q.0,
{
    let x = p.1 * q.2 - p.2 * q.1;
    let y = p.2 * q.0 - p.0 * q.2;
    let z = p.0 * q.1 - p.1 * q.0;
    lemma_minor(a.y, b.z, a.z, b.y, p.1, q.2, p.2, q.1, bound, f);
    lemma_minor(a.z, b.x, a.x, b.z, p.2, q.0, p.0, q.2, bound, f);
    lemma_minor(a.x, b.y, a.y, b.x, p.0, q.1, p.1, q.0, bound, f);
    assert(q.1 * p.2 == p.2 * q.1 && q.2 * p.1 == p.1 * q.2 && q.2 * p.0 == p.0 * q.2 && q.0 * p.2 == p.2 * q.0
        && q.0 * p.1 == p.1 * q.0 && q.1 * p.0 == p.0 * q.1) by (nonlinear_arith);
    lemma_minor(b.y, a.z, b.z, a.y, q.1, p.2, q.2, p.1, bound, f);
    lemma_minor(b.z, a.x, b.x, a.z, q.2, p.0, q.0, p.2, bound, f);
    lemma_minor(b.x, a.y, b.y, a.x, q.0, p.1, q.1, p.0, bound, f);
    let (p0, p1, p2) = p;
    let (q0, q1, q2) = q;
    assert(p0 * x + p1 * y + p2 * z == 0) by (nonlinear_arith)
        requires
            x == p1 * q2 - p2 * q1,
            y == p2 * q0 - p0 * q2,
            z == p0 * q1 - p1 * q0,
    ;
    assert(q0 * x + q1 * y + q2 * z == 0) by (nonlinear_arith)
        requires
            x == p1 * q2 - p2 * q1,
            y == p2 * q0 - p0 * q2,
            z == p0 * q1 - p1 * q0,
    ;
    assert(at_integers(cross_of(a, b, f), x, y, z));
}

proof fn lemma_minor(
    a: u64,
    b: u64,
    c: u64,
    d: u64,
    p: int,
    q: int,
    r: int,
    s: int,
    bound: int,
    f: spec_fn(FloatOp, u64, u64) -> u64,
)
    requires
        exact_to(f, bound),
        counts(a, p),
        counts(b, q),
        counts(c, r),
        counts(d, s),
        size(p * q) + size(r * s) <= bound,
    ensures
        counts(minor_of(a, b, c, d, f), p * q - r * s),
{
    let x = f(FloatOp::Mul, a, b);
    let y = f(FloatOp::Mul, c, d);
    assert(counts(x, p * q) && counts(y, r * s));
}

/// Where the float unit is exact, a transform takes a coordinate to the sums of the products with its rows,
/// each with its translation; in the plane likewise.
pub proof fn law_transforms(
    m: Seq<u64>,
    n: Seq<int>,
    v: Vec3,
    x: int,
    y: int,
    z: int,
    i: int,
    bound: int,
    f: spec_fn(FloatOp, u64, u64) -> u64,
)
    requires
        exact_to(f, bound),
        m.len() == 12,
        n.len() == 12,
        forall|k: int| 0 <= k < 12 ==> counts(#[trigger] m[k], n[k]),
        at_integers(v, x, y, z),
        0 <= i < 3,
        size(n[4 * i] * x) + size(n[4 * i + 1] * y) + size(n[4 * i + 2] * z) + size(n[4 * i + 3]) <= bound,
    ensures
        ({
            let r = transformed(m, v, f);
            counts(
                if i == 0 {
                    r.x
                } else if i == 1 {
                    r.y
                } else {
                    r.z
                },
                n[4 * i] * x + n[4 * i + 1] * y + n[4 * i + 2] * z + n[4 * i + 3],
            )
        }),
{
    let at = 4 * i;
    assert(counts(m[at], n[at]) && counts(m[at + 1], n[at + 1]) && counts(m[at + 2], n[at + 2]) && counts(
        m[at + 3],
        n[at + 3],
    ));
    let row = Vec3 { x: m[at], y: m[at + 1], z: m[at + 2] };
    law_vectors(row, v, (n[at], n[at + 1], n[at + 2]), (x, y, z), bound, f);
    assert(counts(dot_of(row, v, f), n[at] * x + n[at + 1] * y + n[at + 2] * z));
    assert(counts(row_at(m, at, v, f), n[at] * x + n[at + 1] * y + n[at + 2] * z + n[at + 3]));
}

/// Where the float unit is exact, what a transform of space does in the plane takes a point of the plane to
/// where the transform of space takes it.
pub proof fn law_flat_transforms(
    m: Seq<u64>,
    n: Seq<int>,
    flat: Seq<u64>,
    v: Vec2,
    x: int,
    y: int,
    bound: int,
    f: spec_fn(FloatOp, u64, u64) -> u64,
)
    requires
        exact_to(f, bound),
        m.len() == 12,
        n.len() == 12,
        forall|k: int| 0 <= k < 12 ==> counts(#[trigger] m[k], n[k]),
        flat == seq![m[0], m[1], m[3], m[4], m[5], m[7]],
        counts(v.x, x),
        counts(v.y, y),
        size(n[0] * x) + size(n[1] * y) + size(n[3]) <= bound,
        size(n[4] * x) + size(n[5] * y) + size(n[7]) <= bound,
    ensures
        counts(transformed2(flat, v, f).x, n[0] * x + n[1] * y + n[3]),
        counts(transformed2(flat, v, f).y, n[4] * x + n[5] * y + n[7]),
{
    assert(flat[0] == m[0] && flat[1] == m[1] && flat[2] == m[3] && flat[3] == m[4] && flat[4] == m[5] && flat[5]
        == m[7]);
    assert(counts(m[0], n[0]) && counts(m[1], n[1]) && counts(m[3], n[3]) && counts(m[4], n[4]) && counts(
        m[5],
        n[5],
    ) && counts(m[7], n[7]));
    let a = f(FloatOp::Mul, flat[0], v.x);
    let b = f(FloatOp::Mul, flat[1], v.y);
    assert(counts(a, n[0] * x) && counts(b, n[1] * y));
    let ab = f(FloatOp::Add, a, b);
    assert(counts(ab, n[0] * x + n[1] * y));
    let c = f(FloatOp::Mul, flat[3], v.x);
    let d = f(FloatOp::Mul, flat[4], v.y);
    assert(counts(c, n[4] * x) && counts(d, n[5] * y));
    let cd = f(FloatOp::Add, c, d);
    assert(counts(cd, n[4] * x + n[5] * y));
}

/// Whether a transform of the plane takes each point of the plane to where a transform of space takes it, wherever the
/// float unit is exact.
pub open spec fn acts_in_the_plane(m: Seq<u64>, flat: Seq<u64>) -> bool {
    forall|n: Seq<int>, v: Vec2, x: int, y: int, bound: int, f: spec_fn(FloatOp, u64, u64) -> u64|
        #![trigger transformed2(flat, v, f), at_integers(Vec3 { x: v.x, y: v.y, z: ZERO }, x, y, 0), size(bound), n[0]]
        exact_to(f, bound) && n.len() == 12 && (forall|k: int| 0 <= k < 12 ==> counts(#[trigger] m[k], n[k])) && counts(
            v.x,
            x,
        ) && counts(v.y, y) && size(n[0] * x) + size(n[1] * y) + size(n[3]) <= bound && size(n[4] * x) + size(
            n[5] * y,
        ) + size(n[7]) <= bound ==> counts(transformed2(flat, v, f).x, n[0] * x + n[1] * y + n[3]) && counts(
            transformed2(flat, v, f).y,
            n[4] * x + n[5] * y + n[7],
        )
}

proof fn lemma_acts_in_the_plane(m: Seq<u64>)
    requires
        m.len() == 12,
    ensures
        acts_in_the_plane(m, seq![m[0], m[1], m[3], m[4], m[5], m[7]]),
{
    let flat = seq![m[0], m[1], m[3], m[4], m[5], m[7]];
    assert forall|n: Seq<int>, v: Vec2, x: int, y: int, bound: int, f: spec_fn(FloatOp, u64, u64) -> u64|
        #![trigger transformed2(flat, v, f), at_integers(Vec3 { x: v.x, y: v.y, z: ZERO }, x, y, 0), size(bound), n[0]]
        exact_to(f, bound) && n.len() == 12 && (forall|k: int| 0 <= k < 12 ==> counts(#[trigger] m[k], n[k])) && counts(
            v.x,
            x,
        ) && counts(v.y, y) && size(n[0] * x) + size(n[1] * y) + size(n[3]) <= bound && size(n[4] * x) + size(
            n[5] * y,
        ) + size(n[7]) <= bound implies counts(transformed2(flat, v, f).x, n[0] * x + n[1] * y + n[3]) && counts(
        transformed2(flat, v, f).y,
        n[4] * x + n[5] * y + n[7],
    ) by {
        law_flat_transforms(m, n, flat, v, x, y, bound, f);
    }
}

/// A direction that is long enough is divided by its length; the cosine of an angle is kept between minus one
/// and one.
pub proof fn law_directions(v: Vec3, b: u64, f: spec_fn(FloatOp, u64, u64) -> u64)
    ensures
        !num_lt(length_of(v, f), TINY) ==> ({
            let s = f(FloatOp::Div, ONE, length_of(v, f));
            unit_of(v, f) == Vec3 {
                x: f(FloatOp::Mul, v.x, s),
                y: f(FloatOp::Mul, v.y, s),
                z: f(FloatOp::Mul, v.z, s),
            }
        }),
        num_lt(length_of(v, f), TINY) ==> unit_of(v, f) == v,
        !num_lt(ONE, cosine_of(b)),
        !num_lt(cosine_of(b), negated(ONE)),
        !num_lt(ONE, b) && !num_lt(b, negated(ONE)) ==> cosine_of(b) == b,
{
}

/// A colour in hexadecimal digits has for each channel, in the order red, green, blue and how opaque it is,
/// the number that its two digits make; one that does not say how opaque it is is so wholly.
pub proof fn law_hex_colours(s: Seq<char>)
    requires
        s.len() == 7 || s.len() == 9,
        s[0] == '#',
        forall|i: int| 0 < i < s.len() ==> '0' <= (#[trigger] s[i]) <= '9' || 'a' <= s[i] <= 'f',
    ensures
        hex_bytes(s) matches Some((r, g, b, a)) && r == crate::chars::number_read(s.subrange(1, 3), 16) && g
            == crate::chars::number_read(s.subrange(3, 5), 16) && b == crate::chars::number_read(
            s.subrange(5, 7),
            16,
        ) && a == if s.len() == 9 {
            crate::chars::number_read(s.subrange(7, 9), 16)
        } else {
            255
        },
{
    lemma_two_digits(s, 1);
    lemma_two_digits(s, 3);
    lemma_two_digits(s, 5);
    if s.len() == 9 {
        lemma_two_digits(s, 7);
    }
}

proof fn lemma_two_digits(s: Seq<char>, i: int)
    requires
        0 < i,
        i + 1 < s.len(),
        forall|k: int| 0 < k < s.len() ==> '0' <= (#[trigger] s[k]) <= '9' || 'a' <= s[k] <= 'f',
    ensures
        byte_at(s, i) matches Some(b) && b == crate::chars::number_read(s.subrange(i, i + 2), 16),
{
    let t = s.subrange(i, i + 2);
    assert(t.last() == s[i + 1]);
    let u = t.drop_last();
    assert(u.last() == s[i]);
    assert(u.drop_last() =~= Seq::<char>::empty());
    assert(crate::chars::number_read(u.drop_last(), 16) == 0);
    assert(crate::chars::number_read(u, 16) == crate::chars::digit_value(s[i]));
    assert('0' <= s[i] <= '9' || 'a' <= s[i] <= 'f');
    assert('0' <= s[i + 1] <= '9' || 'a' <= s[i + 1] <= 'f');
}

/// Capital digits count as small ones, and a text is no colour in hexadecimal digits unless it starts with a
/// `#` and has three, four, six or eight digits after it.
pub proof fn law_hex_forms(s: Seq<char>, c: char, d: char)
    ensures
        hex_bytes(s) is Some ==> s[0] == '#' && (s.len() == 4 || s.len() == 5 || s.len() == 7 || s.len() == 9),
        'A' <= c <= 'F' && d as int == c as int + 32 ==> hex_digit(c) == hex_digit(d),
        hex_digit(c) is Some <==> '0' <= c <= '9' || 'a' <= c <= 'f' || 'A' <= c <= 'F',
{
}

/// What fits within a length: on numbers that are not negative, nothing with a larger integer part does; a number fits
/// within itself, and what is neither smaller nor equal does not fit. A number that is none fits nowhere.
pub proof fn law_fitting(a: u64, b: u64)
    ensures
        !is_nan(a) ==> num_le(a, a),
        is_nan(a) || is_nan(b) ==> !num_le(a, b),
        !is_nan(a) && !is_nan(b) ==> num_le(a, b) || num_le(b, a),
        num_le(a, b) && num_le(b, a) ==> num_eq(a, b),
        is_finite(a) && is_finite(b) && !negative(a) && !negative(b) && num_le(a, b) ==> whole_part(a) <= whole_part(b),
        is_zero(a) && !negative(b) && !is_nan(b) ==> num_le(a, b),
{
    law_order_follows_integers(a, b);
}

/// The length between two coordinates is how far they lie apart, whichever comes first, where the float unit is exact.
pub proof fn law_gaps(a: u64, b: u64, f: spec_fn(FloatOp, u64, u64) -> u64, bound: int)
    requires
        exact_to(f, bound),
        is_whole(a),
        is_whole(b),
        size(integer(b) - integer(a)) <= bound,
    ensures
        counts(gap_of(a, b, f), size(integer(b) - integer(a))),
        counts(gap_of(b, a, f), size(integer(b) - integer(a))),
{
    let d = f(FloatOp::Sub, b, a);
    let e = f(FloatOp::Sub, a, b);
    assert(counts(d, integer(b) - integer(a)));
    assert(counts(e, integer(a) - integer(b)));
    lemma_magnitude_counts(d);
    lemma_magnitude_counts(e);
}

proof fn lemma_magnitude_counts(b: u64)
    requires
        is_whole(b),
    ensures
        counts(magnitude(b), size(integer(b))),
{
    crate::num::lemma_whole_part_nonnegative(b);
    assert(mag(magnitude(b)) == mag(b));
}

/// Two letters match in any case exactly where they are the same or one is the other in upper case, by the alphabet from A
/// to Z; texts match letter by letter.
pub proof fn law_letters_match(a: Seq<char>, b: Seq<char>, i: int)
    ensures
        same_letters(a, a),
        same_letters(a, b) <==> same_letters(b, a),
        same_letters(a, b) ==> a.len() == b.len() && (0 <= i < a.len() ==> a[i] == b[i] || (65 <= a[i] as int <= 90
            && b[i] as int == a[i] as int + 32) || (65 <= b[i] as int <= 90 && a[i] as int == b[i] as int + 32)),
        a.len() == b.len() && (forall|k: int|
            0 <= k < a.len() ==> (#[trigger] a[k]) == b[k] || (65 <= a[k] as int <= 90 && b[k] as int == a[k] as int
                + 32) || (65 <= b[k] as int <= 90 && a[k] as int == b[k] as int + 32)) ==> same_letters(a, b),
{
    if same_letters(a, b) {
        assert forall|k: int| 0 <= k < b.len() implies low_code(#[trigger] b[k]) == low_code(a[k]) by {
            assert(low_code(a[k]) == low_code(b[k]));
        }
        if 0 <= i < a.len() {
            assert(low_code(a[i]) == low_code(b[i]));
        }
    }
    if same_letters(b, a) {
        assert forall|k: int| 0 <= k < a.len() implies low_code(#[trigger] a[k]) == low_code(b[k]) by {
            assert(low_code(b[k]) == low_code(a[k]));
        }
    }
}

}

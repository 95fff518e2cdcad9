//! Trigonometry in degrees. An angle is folded into a quarter turn first, and the angles whose sine,
//! cosine or tangent is known exactly give it exactly.

use vstd::prelude::*;

use crate::num::{
    ask, equal, finite, is_finite, is_nan, is_zero, less, mag, negate, negated, num_eq, num_lt, place, unit,
    unit_ok, zero, FloatOp, INF, ONE, SIGN, ZERO,
};

verus! {

/// A radian's worth of one degree.
pub const DEGREE: u64 = 0x3f91_df46_a252_9d39;

/// The root of a half.
pub const ROOT_HALF: u64 = 0x3fe6_a09e_667f_3bcd;

/// Half the root of three.
pub const HALF_ROOT_3: u64 = 0x3feb_b67a_e858_4caa;

/// The root of three.
pub const ROOT_3: u64 = 0x3ffb_b67a_e858_4caa;

/// The root of a third.
pub const ROOT_THIRD: u64 = 0x3fe2_79a7_4590_331c;

/// A half.
pub const HALF: u64 = 0x3fe0_0000_0000_0000;

pub const TWO: u64 = 0x4000_0000_0000_0000;

pub const DEG_30: u64 = 0x403e_0000_0000_0000;

pub const DEG_45: u64 = 0x4046_8000_0000_0000;

pub const DEG_60: u64 = 0x404e_0000_0000_0000;

pub const DEG_90: u64 = 0x4056_8000_0000_0000;

pub const DEG_180: u64 = 0x4066_8000_0000_0000;

pub const DEG_360: u64 = 0x4076_8000_0000_0000;

/// Two to the 52nd turns: from here on a number does not tell where in a turn it stands.
pub const HUGE: u64 = 0x43b6_8000_0000_0000;

/// How near to a whole degree an angle is that degree.
pub const NEAR: u64 = 0x3d20_e374_a4f8_e0b4;

/// No number.
pub const NAN: u64 = 0x7ff8_0000_0000_0000;

/// Whether an angle stands in a turn: from nothing up to below it.
pub open spec fn within(x: u64, turn: u64) -> bool {
    !is_nan(x) && place(x) >= 0 && num_lt(x, turn)
}

fn is_within(x: u64, turn: u64) -> (r: bool)
    ensures
        r == within(x, turn),
{
    (less(ZERO, x) || equal(ZERO, x)) && less(x, turn)
}

/// Whether a finite number is so large that it does not tell where in a turn it stands.
pub open spec fn lost(x: u64) -> bool {
    mag(x) >= HUGE
}

fn is_lost(x: u64) -> (r: bool)
    ensures
        r == lost(x),
{
    if x >= SIGN {
        x - SIGN >= HUGE
    } else {
        x >= HUGE
    }
}

/// An angle in the first turn. One that does not tell where in a turn it stands is no number.
pub open spec fn reduced(x: u64, f: spec_fn(FloatOp, u64, u64) -> u64) -> u64 {
    if within(x, DEG_360) {
        x
    } else if is_finite(x) && !lost(x) {
        let turns = f(FloatOp::Floor, f(FloatOp::Div, x, DEG_360), 0);
        f(FloatOp::Sub, x, f(FloatOp::Mul, DEG_360, turns))
    } else {
        NAN
    }
}

fn reduce_360<F: Fn(FloatOp, u64, u64) -> u64>(x: u64, fpu: &F) -> (r: u64)
    requires
        unit_ok(*fpu),
    ensures
        r == reduced(x, unit(*fpu)),
{
    if is_within(x, DEG_360) {
        x
    } else if finite(x) && !is_lost(x) {
        let turns: u64 = ask(fpu, FloatOp::Floor, ask(fpu, FloatOp::Div, x, DEG_360), 0);
        ask(fpu, FloatOp::Sub, x, ask(fpu, FloatOp::Mul, DEG_360, turns))
    } else {
        NAN
    }
}

/// Degrees in radians.
pub open spec fn radians(x: u64, f: spec_fn(FloatOp, u64, u64) -> u64) -> u64 {
    f(FloatOp::Mul, x, DEGREE)
}

fn deg2rad<F: Fn(FloatOp, u64, u64) -> u64>(x: u64, fpu: &F) -> (r: u64)
    requires
        unit_ok(*fpu),
    ensures
        r == radians(x, unit(*fpu)),
{
    ask(fpu, FloatOp::Mul, x, DEGREE)
}

/// Whether `a >= b`.
pub open spec fn at_least(a: u64, b: u64) -> bool {
    num_lt(b, a) || num_eq(a, b)
}

fn is_at_least(a: u64, b: u64) -> (r: bool)
    ensures
        r == at_least(a, b),
{
    less(b, a) || equal(a, b)
}

/// Whether an angle of a turn stands in its second half.
pub open spec fn second_half(x: u64) -> bool {
    at_least(x, DEG_180)
}

/// An angle of a turn, folded into its first half turn.
pub open spec fn half_turn(x: u64, f: spec_fn(FloatOp, u64, u64) -> u64) -> u64 {
    if second_half(x) {
        f(FloatOp::Sub, x, DEG_180)
    } else {
        x
    }
}

/// An angle of a half turn, folded into its first quarter turn.
pub open spec fn quarter_turn(x: u64, f: spec_fn(FloatOp, u64, u64) -> u64) -> u64 {
    if num_lt(DEG_90, x) {
        f(FloatOp::Sub, DEG_180, x)
    } else {
        x
    }
}

/// The sine of an angle of a quarter turn.
pub open spec fn quarter_sin(x: u64, f: spec_fn(FloatOp, u64, u64) -> u64) -> u64 {
    if num_lt(x, DEG_45) {
        if num_eq(x, DEG_30) {
            HALF
        } else {
            f(FloatOp::Sin, radians(x, f), 0)
        }
    } else if num_eq(x, DEG_45) {
        ROOT_HALF
    } else if num_eq(x, DEG_60) {
        HALF_ROOT_3
    } else {
        f(FloatOp::Cos, radians(f(FloatOp::Sub, DEG_90, x), f), 0)
    }
}

/// The cosine of an angle of a quarter turn.
pub open spec fn quarter_cos(x: u64, f: spec_fn(FloatOp, u64, u64) -> u64) -> u64 {
    if num_lt(DEG_45, x) {
        if num_eq(x, DEG_60) {
            HALF
        } else {
            f(FloatOp::Sin, radians(f(FloatOp::Sub, DEG_90, x), f), 0)
        }
    } else if num_eq(x, DEG_45) {
        ROOT_HALF
    } else if num_eq(x, DEG_30) {
        HALF_ROOT_3
    } else {
        f(FloatOp::Cos, radians(x, f), 0)
    }
}

/// A number, with its sign turned where asked.
pub open spec fn signed(turn: bool, y: u64) -> u64 {
    if turn {
        negated(y)
    } else {
        y
    }
}

/// The sine of an angle in degrees.
pub open spec fn sin_of(x: u64, f: spec_fn(FloatOp, u64, u64) -> u64) -> u64 {
    let a = reduced(x, f);
    signed(second_half(a), quarter_sin(quarter_turn(half_turn(a, f), f), f))
}

/// The cosine of an angle in degrees.
pub open spec fn cos_of(x: u64, f: spec_fn(FloatOp, u64, u64) -> u64) -> u64 {
    let a = reduced(x, f);
    let h = half_turn(a, f);
    signed(second_half(a) != num_lt(DEG_90, h), quarter_cos(quarter_turn(h, f), f))
}

/// The sine of an angle in degrees.
pub fn sin_degrees<F: Fn(FloatOp, u64, u64) -> u64>(x: u64, fpu: &F) -> (r: u64)
    requires
        unit_ok(*fpu),
    ensures
        r == sin_of(x, unit(*fpu)),
{
    let mut a: u64 = reduce_360(x, fpu);
    let oppose = is_at_least(a, DEG_180);
    if oppose {
        a = ask(fpu, FloatOp::Sub, a, DEG_180);
    }
    if less(DEG_90, a) {
        a = ask(fpu, FloatOp::Sub, DEG_180, a);
    }
    let y: u64 = if less(a, DEG_45) {
        if equal(a, DEG_30) {
            HALF
        } else {
            ask(fpu, FloatOp::Sin, deg2rad(a, fpu), 0)
        }
    } else if equal(a, DEG_45) {
        ROOT_HALF
    } else if equal(a, DEG_60) {
        HALF_ROOT_3
    } else {
        ask(fpu, FloatOp::Cos, deg2rad(ask(fpu, FloatOp::Sub, DEG_90, a), fpu), 0)
    };
    if oppose {
        negate(y)
    } else {
        y
    }
}

/// The cosine of an angle in degrees.
pub fn cos_degrees<F: Fn(FloatOp, u64, u64) -> u64>(x: u64, fpu: &F) -> (r: u64)
    requires
        unit_ok(*fpu),
    ensures
        r == cos_of(x, unit(*fpu)),
{
    let mut a: u64 = reduce_360(x, fpu);
    let mut oppose = is_at_least(a, DEG_180);
    if oppose {
        a = ask(fpu, FloatOp::Sub, a, DEG_180);
    }
    if less(DEG_90, a) {
        a = ask(fpu, FloatOp::Sub, DEG_180, a);
        oppose = !oppose;
    }
    let y: u64 = if less(DEG_45, a) {
        if equal(a, DEG_60) {
            HALF
        } else {
            ask(fpu, FloatOp::Sin, deg2rad(ask(fpu, FloatOp::Sub, DEG_90, a), fpu), 0)
        }
    } else if equal(a, DEG_45) {
        ROOT_HALF
    } else if equal(a, DEG_30) {
        HALF_ROOT_3
    } else {
        ask(fpu, FloatOp::Cos, deg2rad(a, fpu), 0)
    };
    if oppose {
        negate(y)
    } else {
        y
    }
}

/// The half turns below an angle.
pub open spec fn half_turns(x: u64, f: spec_fn(FloatOp, u64, u64) -> u64) -> u64 {
    f(FloatOp::Floor, f(FloatOp::Div, x, DEG_180), 0)
}

/// The tangent of an angle of a quarter turn. The sign of a zero and of an infinity goes by whether
/// the half turns before it are even.
pub open spec fn quarter_tan(x: u64, even: bool, f: spec_fn(FloatOp, u64, u64) -> u64) -> u64 {
    if is_zero(x) {
        signed(!even, ZERO)
    } else if num_eq(x, DEG_30) {
        ROOT_THIRD
    } else if num_eq(x, DEG_45) {
        ONE
    } else if num_eq(x, DEG_60) {
        ROOT_3
    } else if num_eq(x, DEG_90) {
        signed(!even, INF)
    } else {
        f(FloatOp::Tan, radians(x, f), 0)
    }
}

/// The tangent of an angle in degrees.
pub open spec fn tan_of(x: u64, f: spec_fn(FloatOp, u64, u64) -> u64) -> u64 {
    if is_finite(x) && lost(x) {
        NAN
    } else {
        let cycles = half_turns(x, f);
        let a = if within(x, DEG_180) {
            x
        } else {
            f(FloatOp::Sub, x, f(FloatOp::Mul, DEG_180, cycles))
        };
        let even = is_zero(f(FloatOp::Rem, cycles, TWO));
        signed(num_lt(DEG_90, a), quarter_tan(quarter_turn(a, f), even, f))
    }
}

/// The tangent of an angle in degrees.
pub fn tan_degrees<F: Fn(FloatOp, u64, u64) -> u64>(x: u64, fpu: &F) -> (r: u64)
    requires
        unit_ok(*fpu),
    ensures
        r == tan_of(x, unit(*fpu)),
{
    if finite(x) && is_lost(x) {
        return NAN;
    }
    let cycles: u64 = ask(fpu, FloatOp::Floor, ask(fpu, FloatOp::Div, x, DEG_180), 0);
    let mut a: u64 = if is_within(x, DEG_180) {
        x
    } else {
        ask(fpu, FloatOp::Sub, x, ask(fpu, FloatOp::Mul, DEG_180, cycles))
    };
    let oppose = less(DEG_90, a);
    if oppose {
        a = ask(fpu, FloatOp::Sub, DEG_180, a);
    }
    let even = zero(ask(fpu, FloatOp::Rem, cycles, TWO));
    let y: u64 = if zero(a) {
        if even {
            ZERO
        } else {
            negate(ZERO)
        }
    } else if equal(a, DEG_30) {
        ROOT_THIRD
    } else if equal(a, DEG_45) {
        ONE
    } else if equal(a, DEG_60) {
        ROOT_3
    } else if equal(a, DEG_90) {
        if even {
            INF
        } else {
            negate(INF)
        }
    } else {
        ask(fpu, FloatOp::Tan, deg2rad(a, fpu), 0)
    };
    if oppose {
        negate(y)
    } else {
        y
    }
}

/// An angle in radians, in degrees.
pub open spec fn degrees(x: u64, f: spec_fn(FloatOp, u64, u64) -> u64) -> u64 {
    f(FloatOp::Degrees, x, 0)
}

/// The angle whose cosine is a number, in degrees: the whole degree next to it where the cosine of
/// that degree is exactly the number.
pub open spec fn acos_of(x: u64, f: spec_fn(FloatOp, u64, u64) -> u64) -> u64 {
    let degs = degrees(f(FloatOp::Acos, x, 0), f);
    let whole = f(FloatOp::Round, degs, 0);
    if num_eq(cos_of(whole, f), x) {
        whole
    } else {
        degs
    }
}

/// The angle whose sine is a number, in degrees: the whole degree next to it where the sine of that
/// degree is exactly the number.
pub open spec fn asin_of(x: u64, f: spec_fn(FloatOp, u64, u64) -> u64) -> u64 {
    let degs = degrees(f(FloatOp::Asin, x, 0), f);
    let whole = f(FloatOp::Round, degs, 0);
    if num_eq(sin_of(whole, f), x) {
        whole
    } else {
        degs
    }
}

/// The angle whose tangent is a number, in degrees: the whole degree next to it where the tangent of
/// that degree is exactly the number.
pub open spec fn atan_of(x: u64, f: spec_fn(FloatOp, u64, u64) -> u64) -> u64 {
    let degs = degrees(f(FloatOp::Atan, x, 0), f);
    let whole = f(FloatOp::Round, degs, 0);
    if num_eq(tan_of(whole, f), x) {
        whole
    } else {
        degs
    }
}

/// The angle of a direction, in degrees: the whole degree next to it where that is very near.
pub open spec fn atan2_of(y: u64, x: u64, f: spec_fn(FloatOp, u64, u64) -> u64) -> u64 {
    let degs = degrees(f(FloatOp::Atan2, y, x), f);
    let whole = f(FloatOp::Round, degs, 0);
    if mag(f(FloatOp::Sub, degs, whole)) < NEAR {
        whole
    } else {
        degs
    }
}

/// The angle whose cosine is a number, in degrees.
pub fn acos_degrees<F: Fn(FloatOp, u64, u64) -> u64>(x: u64, fpu: &F) -> (r: u64)
    requires
        unit_ok(*fpu),
    ensures
        r == acos_of(x, unit(*fpu)),
{
    let degs: u64 = ask(fpu, FloatOp::Degrees, ask(fpu, FloatOp::Acos, x, 0), 0);
    let whole: u64 = ask(fpu, FloatOp::Round, degs, 0);
    if equal(cos_degrees(whole, fpu), x) {
        whole
    } else {
        degs
    }
}

/// The angle whose sine is a number, in degrees.
pub fn asin_degrees<F: Fn(FloatOp, u64, u64) -> u64>(x: u64, fpu: &F) -> (r: u64)
    requires
        unit_ok(*fpu),
    ensures
        r == asin_of(x, unit(*fpu)),
{
    let degs: u64 = ask(fpu, FloatOp::Degrees, ask(fpu, FloatOp::Asin, x, 0), 0);
    let whole: u64 = ask(fpu, FloatOp::Round, degs, 0);
    if equal(sin_degrees(whole, fpu), x) {
        whole
    } else {
        degs
    }
}

/// The angle whose tangent is a number, in degrees.
pub fn atan_degrees<F: Fn(FloatOp, u64, u64) -> u64>(x: u64, fpu: &F) -> (r: u64)
    requires
        unit_ok(*fpu),
    ensures
        r == atan_of(x, unit(*fpu)),
{
    let degs: u64 = ask(fpu, FloatOp::Degrees, ask(fpu, FloatOp::Atan, x, 0), 0);
    let whole: u64 = ask(fpu, FloatOp::Round, degs, 0);
    if equal(tan_degrees(whole, fpu), x) {
        whole
    } else {
        degs
    }
}

/// The angle of a direction, in degrees.
pub fn atan2_degrees<F: Fn(FloatOp, u64, u64) -> u64>(y: u64, x: u64, fpu: &F) -> (r: u64)
    requires
        unit_ok(*fpu),
    ensures
        r == atan2_of(y, x, unit(*fpu)),
{
    let degs: u64 = ask(fpu, FloatOp::Degrees, ask(fpu, FloatOp::Atan2, y, x), 0);
    let whole: u64 = ask(fpu, FloatOp::Round, degs, 0);
    let off: u64 = ask(fpu, FloatOp::Sub, degs, whole);
    let off: u64 = if off >= SIGN {
        off - SIGN
    } else {
        off
    };
    if off < NEAR {
        whole
    } else {
        degs
    }
}

/// Whatever the float unit answers, the sines and cosines of 30, 45 and 60 degrees are exact.
pub proof fn law_exact_angles(f: spec_fn(FloatOp, u64, u64) -> u64)
    ensures
        sin_of(DEG_30, f) == HALF,
        cos_of(DEG_60, f) == HALF,
        sin_of(DEG_45, f) == ROOT_HALF,
        cos_of(DEG_45, f) == ROOT_HALF,
        sin_of(DEG_60, f) == HALF_ROOT_3,
        cos_of(DEG_30, f) == HALF_ROOT_3,
{
}

/// An angle that is not finite, or that is too large to tell where in a turn it stands, is folded
/// into no number.
pub proof fn law_lost_angles_have_no_place(x: u64, f: spec_fn(FloatOp, u64, u64) -> u64)
    requires
        !is_finite(x) || lost(x),
    ensures
        is_nan(reduced(x, f)),
        is_finite(x) ==> is_nan(tan_of(x, f)),
{
}

/// An inverse answers something else than the float unit only where going back from the answer gives
/// exactly the number.
pub proof fn law_whole_degrees_go_back(x: u64, f: spec_fn(FloatOp, u64, u64) -> u64)
    ensures
        acos_of(x, f) != degrees(f(FloatOp::Acos, x, 0), f) ==> num_eq(cos_of(acos_of(x, f), f), x),
        asin_of(x, f) != degrees(f(FloatOp::Asin, x, 0), f) ==> num_eq(sin_of(asin_of(x, f), f), x),
        atan_of(x, f) != degrees(f(FloatOp::Atan, x, 0), f) ==> num_eq(tan_of(atan_of(x, f), f), x),
{
}

/// A whole degree comes back from its cosine, sine or tangent where the float unit's answer is next
/// to it: what the inverse gives is then that very degree.
pub proof fn law_whole_degrees_come_back(d: u64, f: spec_fn(FloatOp, u64, u64) -> u64)
    ensures
        ({
            let x = cos_of(d, f);
            !is_nan(x) && f(FloatOp::Round, degrees(f(FloatOp::Acos, x, 0), f), 0) == d
                ==> acos_of(x, f) == d
        }),
        ({
            let x = sin_of(d, f);
            !is_nan(x) && f(FloatOp::Round, degrees(f(FloatOp::Asin, x, 0), f), 0) == d
                ==> asin_of(x, f) == d
        }),
        ({
            let x = tan_of(d, f);
            !is_nan(x) && f(FloatOp::Round, degrees(f(FloatOp::Atan, x, 0), f), 0) == d
                ==> atan_of(x, f) == d
        }),
{
}

/// Strictly between nothing and a quarter turn the tangent is the float unit's tangent of the angle in
/// radians, but for the three angles whose tangent is known: the root of a third, one, and the root of
/// three.
pub proof fn law_tangent(x: u64, f: spec_fn(FloatOp, u64, u64) -> u64)
    requires
        num_lt(ZERO, x),
        num_lt(x, DEG_90),
    ensures
        x != DEG_30 && x != DEG_45 && x != DEG_60 ==> tan_of(x, f) == f(
            FloatOp::Tan,
            f(FloatOp::Mul, x, 0x3f91_df46_a252_9d39),
            0,
        ),
        x == DEG_30 ==> is_root(tan_of(x, f), 1, 3),
        x == DEG_45 ==> is_root(tan_of(x, f), 1, 1),
        x == DEG_60 ==> is_root(tan_of(x, f), 3, 1),
{
    lemma_roots();
}

/// Past a quarter turn the tangent is that of the angle that is missing to a half turn, with its sign
/// turned; and in the half turns after the first one it is that of the angle within its half turn.
pub proof fn law_tangent_folds(x: u64, f: spec_fn(FloatOp, u64, u64) -> u64)
    ensures
        ({
            let y = f(FloatOp::Sub, DEG_180, x);
            num_lt(DEG_90, x) && num_lt(x, DEG_180) && num_lt(ZERO, y) && num_lt(y, DEG_90) ==> tan_of(x, f)
                == negated(tan_of(y, f))
        }),
        ({
            let turns = f(FloatOp::Floor, f(FloatOp::Div, x, DEG_180), 0);
            let y = f(FloatOp::Sub, x, f(FloatOp::Mul, DEG_180, turns));
            is_finite(x) && !lost(x) && !within(x, DEG_180) && num_lt(ZERO, y) && num_lt(y, DEG_90)
                ==> tan_of(x, f) == tan_of(y, f)
        }),
{
}

/// At a whole number of half turns the tangent is zero, and a quarter turn further it is infinite; both
/// have a minus sign exactly where the number of half turns before them is odd.
pub proof fn law_tangent_poles(x: u64, f: spec_fn(FloatOp, u64, u64) -> u64)
    requires
        is_finite(x),
        !lost(x),
    ensures
        ({
            let turns = f(FloatOp::Floor, f(FloatOp::Div, x, DEG_180), 0);
            let y = if within(x, DEG_180) {
                x
            } else {
                f(FloatOp::Sub, x, f(FloatOp::Mul, DEG_180, turns))
            };
            let odd = !is_zero(f(FloatOp::Rem, turns, 0x4000_0000_0000_0000));
            &&& is_zero(y) ==> is_zero(tan_of(x, f)) && crate::num::negative(tan_of(x, f)) == odd
            &&& num_eq(y, DEG_90) ==> mag(tan_of(x, f)) == INF && crate::num::negative(tan_of(x, f)) == odd
        }),
{
}

/// Whether a number is the double next to the root of a fraction between a quarter and four.
pub open spec fn is_root(r: u64, top: int, bottom: int) -> bool {
    let s = crate::num::significand(r);
    let square: int = if crate::num::expo(r) == 1023 {
        0x100000000000000000000000000
    } else {
        0x400000000000000000000000000
    };
    &&& r < SIGN
    &&& crate::num::expo(r) == 1023 || crate::num::expo(r) == 1022
    &&& bottom * ((2 * s - 1) * (2 * s - 1)) <= 4 * (top * square) <= bottom * ((2 * s + 1) * (2 * s + 1))
}

/// Whether a number is a given whole number.
pub open spec fn is_number(b: u64, n: int) -> bool {
    b < SIGN && crate::num::is_whole(b) && crate::num::whole_part(b) == n
}

proof fn lemma_square(x: int, n: int, square: int)
    requires
        x == n,
        n * n == square,
    ensures
        x * x == square,
{
}

proof fn lemma_quotient(x: int, p: int, n: int)
    requires
        p > 0,
        x == n * p,
    ensures
        x / p == n,
        x % p == 0,
{
    vstd::arithmetic::div_mod::lemma_fundamental_div_mod_converse(x, p, n, 0);
}

proof fn lemma_roots()
    ensures
        is_root(HALF, 1, 4),
        is_root(ROOT_HALF, 1, 2),
        is_root(HALF_ROOT_3, 3, 4),
        is_root(ROOT_THIRD, 1, 3),
        is_root(ONE, 1, 1),
        is_root(ROOT_3, 3, 1),
{
    assert(is_root(HALF, 1, 4)) by {
        let s = crate::num::significand(HALF);
        assert(crate::num::expo(HALF) == 1022 && s == 0x10000000000000);
        assert(9007199254740991 * 9007199254740991 == 81129638414606663681390495662081int)
            by (nonlinear_arith);
        lemma_square(2 * s - 1, 9007199254740991, 81129638414606663681390495662081);
        assert(9007199254740993 * 9007199254740993 == 81129638414606699710187514626049int)
            by (nonlinear_arith);
        lemma_square(2 * s + 1, 9007199254740993, 81129638414606699710187514626049);
    }
    assert(is_root(ROOT_HALF, 1, 2)) by {
        let s = crate::num::significand(ROOT_HALF);
        assert(crate::num::expo(ROOT_HALF) == 1022 && s == 0x16a09e667f3bcd);
        lemma_square(2 * s - 1, 12738103345051545, 162259276829213360098838706887025);
        lemma_square(2 * s + 1, 12738103345051547, 162259276829213411051252087093209);
    }
    assert(is_root(HALF_ROOT_3, 3, 4)) by {
        let s = crate::num::significand(HALF_ROOT_3);
        assert(crate::num::expo(HALF_ROOT_3) == 1022 && s == 0x1bb67ae8584caa);
        lemma_square(2 * s - 1, 15600926743107923, 243388915243819985682781225373929);
        lemma_square(2 * s + 1, 15600926743107925, 243388915243820048086488197805625);
    }
    assert(is_root(ROOT_THIRD, 1, 3)) by {
        let s = crate::num::significand(ROOT_THIRD);
        assert(crate::num::expo(ROOT_THIRD) == 1022 && s == 0x1279a74590331c);
        lemma_square(2 * s - 1, 10400617828738615, 108172851219475542258601992118225);
        lemma_square(2 * s + 1, 10400617828738617, 108172851219475583861073307072689);
    }
    assert(is_root(ONE, 1, 1)) by {
        let s = crate::num::significand(ONE);
        assert(crate::num::expo(ONE) == 1023 && s == 0x10000000000000);
        assert(9007199254740991 * 9007199254740991 == 81129638414606663681390495662081int)
            by (nonlinear_arith);
        lemma_square(2 * s - 1, 9007199254740991, 81129638414606663681390495662081);
        assert(9007199254740993 * 9007199254740993 == 81129638414606699710187514626049int)
            by (nonlinear_arith);
        lemma_square(2 * s + 1, 9007199254740993, 81129638414606699710187514626049);
    }
    assert(is_root(ROOT_3, 3, 1)) by {
        let s = crate::num::significand(ROOT_3);
        assert(crate::num::expo(ROOT_3) == 1023 && s == 0x1bb67ae8584caa);
        lemma_square(2 * s - 1, 15600926743107923, 243388915243819985682781225373929);
        lemma_square(2 * s + 1, 15600926743107925, 243388915243820048086488197805625);
    }
}

/// In the first eighth of a turn the sine is the float unit's sine of the angle in radians, and in the
/// second eighth its cosine of what is missing to a quarter turn; the cosine is the other way round. But
/// 30, 45 and 60 degrees give the roots that they are known to give.
pub proof fn law_sine_and_cosine(x: u64, f: spec_fn(FloatOp, u64, u64) -> u64)
    requires
        within(x, DEG_90) || x == DEG_90,
    ensures
        num_lt(x, DEG_45) && x != DEG_30 ==> sin_of(x, f) == f(
            FloatOp::Sin,
            f(FloatOp::Mul, x, 0x3f91_df46_a252_9d39),
            0,
        ),
        num_lt(x, DEG_45) && x != DEG_30 ==> cos_of(x, f) == f(
            FloatOp::Cos,
            f(FloatOp::Mul, x, 0x3f91_df46_a252_9d39),
            0,
        ),
        num_lt(DEG_45, x) && x != DEG_60 ==> sin_of(x, f) == f(
            FloatOp::Cos,
            f(FloatOp::Mul, f(FloatOp::Sub, DEG_90, x), 0x3f91_df46_a252_9d39),
            0,
        ),
        num_lt(DEG_45, x) && x != DEG_60 ==> cos_of(x, f) == f(
            FloatOp::Sin,
            f(FloatOp::Mul, f(FloatOp::Sub, DEG_90, x), 0x3f91_df46_a252_9d39),
            0,
        ),
        x == DEG_30 ==> is_root(sin_of(x, f), 1, 4) && is_root(cos_of(x, f), 3, 4),
        x == DEG_45 ==> is_root(sin_of(x, f), 1, 2) && is_root(cos_of(x, f), 1, 2),
        x == DEG_60 ==> is_root(sin_of(x, f), 3, 4) && is_root(cos_of(x, f), 1, 4),
{
    lemma_roots();
}

/// The cosine of an angle past an eighth of a turn is the sine of what is missing to a quarter turn, and
/// the sine of it that one's cosine.
pub proof fn law_sine_and_cosine_mirror(x: u64, f: spec_fn(FloatOp, u64, u64) -> u64)
    requires
        num_lt(DEG_45, x),
        num_lt(x, DEG_90) || x == DEG_90,
        within(f(FloatOp::Sub, DEG_90, x), DEG_45),
        f(FloatOp::Sub, DEG_90, x) == DEG_30 <==> x == DEG_60,
    ensures
        cos_of(x, f) == sin_of(f(FloatOp::Sub, DEG_90, x), f),
        sin_of(x, f) == cos_of(f(FloatOp::Sub, DEG_90, x), f),
{
}

/// Past a quarter turn the sine is that of what is missing to a half turn, and the cosine that one's with
/// its sign turned; past a half turn both are those of the angle without it, with their sign turned; past
/// a turn, or below nothing, both are those of the angle within its turn.
pub proof fn law_sine_and_cosine_fold(x: u64, f: spec_fn(FloatOp, u64, u64) -> u64)
    ensures
        ({
            let y = f(FloatOp::Sub, DEG_180, x);
            num_lt(DEG_90, x) && num_lt(x, DEG_180) && within(y, DEG_90) ==> sin_of(x, f) == sin_of(y, f)
                && cos_of(x, f) == negated(cos_of(y, f))
        }),
        ({
            let y = f(FloatOp::Sub, x, DEG_180);
            !num_lt(x, DEG_180) && num_lt(x, DEG_360) && within(y, DEG_180) ==> sin_of(x, f) == negated(
                sin_of(y, f),
            ) && cos_of(x, f) == negated(cos_of(y, f))
        }),
        ({
            let turns = f(FloatOp::Floor, f(FloatOp::Div, x, DEG_360), 0);
            let y = f(FloatOp::Sub, x, f(FloatOp::Mul, DEG_360, turns));
            is_finite(x) && !lost(x) && !within(x, DEG_360) && within(y, DEG_360) ==> sin_of(x, f) == sin_of(
                y,
                f,
            ) && cos_of(x, f) == cos_of(y, f)
        }),
{
}

/// The angles by which the functions fold are the whole degrees that they are named for.
pub proof fn law_angles()
    ensures
        is_number(DEG_30, 30),
        is_number(DEG_45, 45),
        is_number(DEG_60, 60),
        is_number(DEG_90, 90),
        is_number(DEG_180, 180),
        is_number(DEG_360, 360),
{
    vstd::arithmetic::power2::lemma2_to64();
    vstd::arithmetic::power2::lemma2_to64_rest();
    assert(crate::num::expo(DEG_30) == 1027 && crate::num::significand(DEG_30) == 0x1e000000000000);
    lemma_quotient(
        crate::num::significand(DEG_30),
        vstd::arithmetic::power2::pow2((1075 - crate::num::expo(DEG_30)) as nat) as int,
        30,
    );
    assert(crate::num::expo(DEG_45) == 1028 && crate::num::significand(DEG_45) == 0x16800000000000);
    lemma_quotient(
        crate::num::significand(DEG_45),
        vstd::arithmetic::power2::pow2((1075 - crate::num::expo(DEG_45)) as nat) as int,
        45,
    );
    assert(crate::num::expo(DEG_60) == 1028 && crate::num::significand(DEG_60) == 0x1e000000000000);
    lemma_quotient(
        crate::num::significand(DEG_60),
        vstd::arithmetic::power2::pow2((1075 - crate::num::expo(DEG_60)) as nat) as int,
        60,
    );
    assert(crate::num::expo(DEG_90) == 1029 && crate::num::significand(DEG_90) == 0x16800000000000);
    lemma_quotient(
        crate::num::significand(DEG_90),
        vstd::arithmetic::power2::pow2((1075 - crate::num::expo(DEG_90)) as nat) as int,
        90,
    );
    assert(crate::num::expo(DEG_180) == 1030 && crate::num::significand(DEG_180) == 0x16800000000000);
    lemma_quotient(
        crate::num::significand(DEG_180),
        vstd::arithmetic::power2::pow2((1075 - crate::num::expo(DEG_180)) as nat) as int,
        180,
    );
    assert(crate::num::expo(DEG_360) == 1031 && crate::num::significand(DEG_360) == 0x16800000000000);
    lemma_quotient(
        crate::num::significand(DEG_360),
        vstd::arithmetic::power2::pow2((1075 - crate::num::expo(DEG_360)) as nat) as int,
        360,
    );
}

/// What the direction of a point gives is the float unit's angle in degrees, or a whole degree that is
/// less than a hundredth of a trillionth of it away.
pub proof fn law_directions(y: u64, x: u64, f: spec_fn(FloatOp, u64, u64) -> u64)
    ensures
        ({
            let degs = f(FloatOp::Degrees, f(FloatOp::Atan2, y, x), 0);
            let whole = f(FloatOp::Round, degs, 0);
            let near = mag(f(FloatOp::Sub, degs, whole)) < 0x3d20_e374_a4f8_e0b4;
            &&& near ==> atan2_of(y, x, f) == whole
            &&& !near ==> atan2_of(y, x, f) == degs
        }),
{
}

/// What an inverse gives is the float unit's angle in degrees, or the whole degree next to that; and it
/// is the whole degree exactly where going forth from it gives the number.
pub proof fn law_inverses(x: u64, f: spec_fn(FloatOp, u64, u64) -> u64)
    ensures
        ({
            let degs = f(FloatOp::Degrees, f(FloatOp::Acos, x, 0), 0);
            let whole = f(FloatOp::Round, degs, 0);
            if num_eq(cos_of(whole, f), x) {
                acos_of(x, f) == whole
            } else {
                acos_of(x, f) == degs
            }
        }),
        ({
            let degs = f(FloatOp::Degrees, f(FloatOp::Asin, x, 0), 0);
            let whole = f(FloatOp::Round, degs, 0);
            if num_eq(sin_of(whole, f), x) {
                asin_of(x, f) == whole
            } else {
                asin_of(x, f) == degs
            }
        }),
        ({
            let degs = f(FloatOp::Degrees, f(FloatOp::Atan, x, 0), 0);
            let whole = f(FloatOp::Round, degs, 0);
            if num_eq(tan_of(whole, f), x) {
                atan_of(x, f) == whole
            } else {
                atan_of(x, f) == degs
            }
        }),
{
}

/// A tangent is no number exactly for an angle that is lost, as long as the float unit gives numbers.
pub proof fn law_lost_angles(x: u64, f: spec_fn(FloatOp, u64, u64) -> u64)
    requires
        is_finite(x),
        mag(x) >= 0x43b6_8000_0000_0000,
    ensures
        is_nan(tan_of(x, f)),
        is_nan(reduced(x, f)),
{
}

} // verus!

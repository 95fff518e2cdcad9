//! Numbers as IEEE-754 double bit patterns.
//!
//! A number is held as its 64 bits. Everything that is decided about a number (is it zero, is it
//! finite, which of two is smaller, which integer does it truncate to) is integer work on those
//! bits and is done here. Rounding arithmetic is not: it is handed in as a function from an
//! operation and two bit patterns to the resulting bit pattern, the float unit.

use vstd::arithmetic::power2::*;
use vstd::bits::*;
use vstd::prelude::*;

use crate::chars::Rank;

verus! {

/// A double, as its bit pattern.
pub type Bits = u64;

/// The operations of the float unit. The unary ones ignore their second operand; `FromInt` reads
/// its first operand as a two's complement `i64`.
#[derive(Debug, Clone, Copy, PartialEq, Eq, Structural)]
pub enum FloatOp {
    Add,
    Sub,
    Mul,
    Div,
    Rem,
    Pow,
    Sqrt,
    Floor,
    Sin,
    Cos,
    Tan,
    Asin,
    Acos,
    Atan,
    Atan2,
    Round,
    Degrees,
    FromInt,
    Midpoint,
}

pub const SIGN: u64 = 0x8000_0000_0000_0000;

pub const INF: u64 = 0x7ff0_0000_0000_0000;

pub const ZERO: u64 = 0;

pub const ONE: u64 = 0x3ff0_0000_0000_0000;

/// The float unit can be asked anything, and the same question has one answer.
pub open spec fn unit_ok<F: Fn(FloatOp, u64, u64) -> u64>(f: F) -> bool {
    &&& forall|op: FloatOp, a: u64, b: u64| call_requires(f, (op, a, b))
    &&& forall|op: FloatOp, a: u64, b: u64, r: u64, s: u64|
        call_ensures(f, (op, a, b), r) && call_ensures(f, (op, a, b), s) ==> r == s
}

/// What the float unit answers.
pub open spec fn answer<F: Fn(FloatOp, u64, u64) -> u64>(f: F, op: FloatOp, a: u64, b: u64) -> u64 {
    choose|r: u64| call_ensures(f, (op, a, b), r)
}

/// The float unit as a mathematical function.
pub open spec fn unit<F: Fn(FloatOp, u64, u64) -> u64>(f: F) -> spec_fn(FloatOp, u64, u64) -> u64 {
    |op: FloatOp, a: u64, b: u64| answer(f, op, a, b)
}

/// Asks the float unit.
pub fn ask<F: Fn(FloatOp, u64, u64) -> u64>(f: &F, op: FloatOp, a: u64, b: u64) -> (r: u64)
    requires
        unit_ok(*f),
    ensures
        r == unit(*f)(op, a, b),
{
    f(op, a, b)
}

pub open spec fn negative(b: u64) -> bool {
    b >= SIGN
}

/// The bits without the sign: the magnitude's place in the order of all magnitudes.
pub open spec fn mag(b: u64) -> int {
    if b >= SIGN {
        b - SIGN
    } else {
        b as int
    }
}

pub open spec fn is_nan(b: u64) -> bool {
    mag(b) > INF
}

pub open spec fn is_finite(b: u64) -> bool {
    mag(b) < INF
}

pub open spec fn is_zero(b: u64) -> bool {
    mag(b) == 0
}

/// The place of a number in the IEEE order: both zeros at 0, negatives below, positives above.
pub open spec fn place(b: u64) -> int {
    if b >= SIGN {
        -mag(b)
    } else {
        mag(b)
    }
}

/// IEEE `==`.
pub open spec fn num_eq(a: u64, b: u64) -> bool {
    !is_nan(a) && !is_nan(b) && place(a) == place(b)
}

/// IEEE `<`.
pub open spec fn num_lt(a: u64, b: u64) -> bool {
    !is_nan(a) && !is_nan(b) && place(a) < place(b)
}

/// IEEE three-way comparison; nothing where a NaN takes part.
pub open spec fn num_rank(a: u64, b: u64) -> Option<Rank> {
    if is_nan(a) || is_nan(b) {
        None
    } else if place(a) < place(b) {
        Some(Rank::Less)
    } else if place(a) == place(b) {
        Some(Rank::Equal)
    } else {
        Some(Rank::Greater)
    }
}

/// The number with its sign turned.
pub open spec fn negated(b: u64) -> u64 {
    if b >= SIGN {
        (b - SIGN) as u64
    } else {
        (b + SIGN) as u64
    }
}

/// The next larger double.
pub open spec fn next_up_of(b: u64) -> u64 {
    if is_nan(b) || b == INF {
        b
    } else if is_zero(b) {
        1
    } else if b < SIGN {
        (b + 1) as u64
    } else {
        (b - 1) as u64
    }
}

/// The exponent field.
pub open spec fn expo(b: u64) -> int {
    mag(b) / 0x10_0000_0000_0000
}

/// The significand of a normal number, hidden bit included.
pub open spec fn significand(b: u64) -> int {
    mag(b) % 0x10_0000_0000_0000 + 0x10_0000_0000_0000
}

/// The integer part of the magnitude of a finite number.
pub open spec fn whole_part(b: u64) -> int
    recommends
        is_finite(b),
{
    if expo(b) < 1023 {
        0
    } else if expo(b) < 1075 {
        significand(b) / pow2((1075 - expo(b)) as nat) as int
    } else {
        significand(b) * pow2((expo(b) - 1075) as nat)
    }
}

/// Whether a finite number has no fraction.
pub open spec fn is_whole(b: u64) -> bool {
    &&& is_finite(b)
    &&& if mag(b) == 0 {
        true
    } else if expo(b) < 1023 {
        false
    } else if expo(b) < 1075 {
        significand(b) % pow2((1075 - expo(b)) as nat) as int == 0
    } else {
        true
    }
}

/// The integer that a number without a fraction is.
pub open spec fn integer(b: u64) -> int {
    if negative(b) {
        -whole_part(b)
    } else {
        whole_part(b)
    }
}

/// How far an integer is from zero.
pub open spec fn size(n: int) -> int {
    if n < 0 {
        -n
    } else {
        n
    }
}

/// Whether a number is a given integer.
pub open spec fn counts(b: u64, n: int) -> bool {
    is_whole(b) && integer(b) == n
}

/// Whether the float unit adds, subtracts and multiplies integers exactly, as long as what comes out is no
/// further from zero than a bound. (That of doubles does so up to two to the 53rd.)
pub open spec fn exact_to(f: spec_fn(FloatOp, u64, u64) -> u64, bound: int) -> bool {
    &&& forall|a: u64, b: u64|
        is_whole(a) && is_whole(b) && size(integer(a) + integer(b)) <= bound ==> counts(
            #[trigger] f(FloatOp::Add, a, b),
            integer(a) + integer(b),
        )
    &&& forall|a: u64, b: u64|
        is_whole(a) && is_whole(b) && size(integer(a) - integer(b)) <= bound ==> counts(
            #[trigger] f(FloatOp::Sub, a, b),
            integer(a) - integer(b),
        )
    &&& forall|a: u64, b: u64|
        is_whole(a) && is_whole(b) && size(integer(a) * integer(b)) <= bound ==> counts(
            #[trigger] f(FloatOp::Mul, a, b),
            integer(a) * integer(b),
        )
}

/// The saturating conversion to an unsigned integer of at most `top`: NaN and negatives give 0.
pub open spec fn to_unsigned(b: u64, top: int) -> int {
    if is_nan(b) || negative(b) {
        0
    } else if b == INF || whole_part(b) > top {
        top
    } else {
        whole_part(b)
    }
}

/// The saturating conversion to `i64`: NaN gives 0.
pub open spec fn to_signed(b: u64) -> int {
    if is_nan(b) {
        0
    } else if !negative(b) {
        if b == INF || whole_part(b) > i64::MAX {
            i64::MAX as int
        } else {
            whole_part(b)
        }
    } else {
        if mag(b) == INF || -whole_part(b) < i64::MIN {
            i64::MIN as int
        } else {
            -whole_part(b)
        }
    }
}

fn mag_bits(b: u64) -> (r: u64)
    ensures
        r == mag(b),
        r < SIGN,
{
    if b >= SIGN {
        b - SIGN
    } else {
        b
    }
}

pub fn nan(b: u64) -> (r: bool)
    ensures
        r == is_nan(b),
{
    mag_bits(b) > INF
}

pub fn finite(b: u64) -> (r: bool)
    ensures
        r == is_finite(b),
{
    mag_bits(b) < INF
}

pub fn zero(b: u64) -> (r: bool)
    ensures
        r == is_zero(b),
{
    mag_bits(b) == 0
}

/// IEEE three-way comparison.
pub fn rank(a: u64, b: u64) -> (r: Option<Rank>)
    ensures
        r == num_rank(a, b),
{
    let x: u64 = mag_bits(a);
    let y: u64 = mag_bits(b);
    if x > INF || y > INF {
        return None;
    }
    let less: bool = if a >= SIGN {
        if b >= SIGN {
            y < x
        } else {
            x != 0 || y != 0
        }
    } else {
        b < SIGN && x < y
    };
    let equal: bool = x == y && ((a >= SIGN) == (b >= SIGN) || x == 0);
    if less {
        Some(Rank::Less)
    } else if equal {
        Some(Rank::Equal)
    } else {
        Some(Rank::Greater)
    }
}

/// IEEE `==`.
pub fn equal(a: u64, b: u64) -> (r: bool)
    ensures
        r == num_eq(a, b),
{
    match rank(a, b) {
        Some(Rank::Equal) => true,
        _ => false,
    }
}

/// IEEE `<`.
pub fn less(a: u64, b: u64) -> (r: bool)
    ensures
        r == num_lt(a, b),
{
    match rank(a, b) {
        Some(Rank::Less) => true,
        _ => false,
    }
}

/// Turns the sign.
pub fn negate(b: u64) -> (r: u64)
    ensures
        r == negated(b),
{
    if b >= SIGN {
        b - SIGN
    } else {
        b + SIGN
    }
}

/// The next larger double.
pub fn next_up(b: u64) -> (r: u64)
    ensures
        r == next_up_of(b),
{
    let m: u64 = mag_bits(b);
    if m > INF || b == INF {
        b
    } else if m == 0 {
        1
    } else if b < SIGN {
        b + 1
    } else {
        b - 1
    }
}

/// The integer part of the magnitude of a finite number, capped at `u64::MAX`.
fn whole_bits(b: u64) -> (r: u64)
    requires
        is_finite(b),
    ensures
        r == if whole_part(b) > u64::MAX { u64::MAX as int } else { whole_part(b) },
{
    let m: u64 = mag_bits(b);
    let e: u64 = m / 0x10_0000_0000_0000;
    let s: u64 = m % 0x10_0000_0000_0000 + 0x10_0000_0000_0000;
    if e < 1023 {
        0
    } else if e < 1075 {
        let by: u64 = 1075 - e;
        proof {
            lemma_u64_shr_is_div(s, by);
        }
        s >> by
    } else if e <= 1086 {
        let by: u64 = e - 1075;
        proof {
            lemma_pow2_strictly_increases_upto(by as nat, 11);
            lemma2_to64();
            assert(s * pow2(by as nat) <= u64::MAX) by (nonlinear_arith)
                requires
                    s < 0x20_0000_0000_0000,
                    pow2(by as nat) <= 2048,
            ;
            lemma_u64_shl_is_mul(s, by);
        }
        s << by
    } else {
        proof {
            lemma_pow2_strictly_increases_upto(12, (e - 1075) as nat);
            lemma2_to64();
            assert(s * pow2((e - 1075) as nat) > u64::MAX) by (nonlinear_arith)
                requires
                    s >= 0x10_0000_0000_0000,
                    pow2((e - 1075) as nat) >= 4096,
            ;
        }
        u64::MAX
    }
}

proof fn lemma_pow2_strictly_increases_upto(a: nat, b: nat)
    requires
        a <= b,
    ensures
        pow2(a) <= pow2(b),
{
    if a < b {
        lemma_pow2_strictly_increases(a, b);
    }
}

/// The saturating conversion to `u64`.
pub fn to_u64(b: u64) -> (r: u64)
    ensures
        r == to_unsigned(b, u64::MAX as int),
{
    let m: u64 = mag_bits(b);
    if m > INF || b >= SIGN {
        0
    } else if b == INF {
        u64::MAX
    } else {
        whole_bits(b)
    }
}

/// The saturating conversion to `u32`.
pub fn to_u32(b: u64) -> (r: u32)
    ensures
        r == to_unsigned(b, u32::MAX as int),
{
    let w: u64 = to_u64(b);
    if w > 0xffff_ffff {
        0xffff_ffff
    } else {
        w as u32
    }
}

/// The saturating conversion to `i64`.
pub fn to_i64(b: u64) -> (r: i64)
    ensures
        r == to_signed(b),
{
    let m: u64 = mag_bits(b);
    if m > INF {
        return 0;
    }
    if b < SIGN {
        if b == INF {
            return i64::MAX;
        }
        let w: u64 = whole_bits(b);
        if w > 0x7fff_ffff_ffff_ffff {
            i64::MAX
        } else {
            w as i64
        }
    } else {
        if m == INF {
            return i64::MIN;
        }
        let w: u64 = whole_bits(b);
        if w >= 0x8000_0000_0000_0000 {
            i64::MIN
        } else {
            -(w as i64)
        }
    }
}

/// Whether a number is finite and has no fraction.
pub fn whole(b: u64) -> (r: bool)
    ensures
        r == is_whole(b),
{
    let m: u64 = mag_bits(b);
    if m >= INF {
        return false;
    }
    if m == 0 {
        return true;
    }
    let e: u64 = m / 0x10_0000_0000_0000;
    if e < 1023 {
        return false;
    }
    if e >= 1075 {
        return true;
    }
    let s: u64 = m % 0x10_0000_0000_0000 + 0x10_0000_0000_0000;
    let by: u64 = 1075 - e;
    proof {
        lemma_u64_shr_is_div(s, by);
        lemma_pow2_pos(by as nat);
        lemma_pow2_strictly_increases_upto(by as nat, 52);
        lemma2_to64();
        lemma2_to64_rest();
        assert(1u64 * pow2(by as nat) <= u64::MAX);
        lemma_u64_shl_is_mul(1, by);
    }
    let d: u64 = 1u64 << by;
    s % d == 0
}

/// The order and the equality of numbers agree, and nothing but a NaN is outside the order.
pub proof fn law_order_is_total_without_nan(a: u64, b: u64)
    ensures
        num_eq(a, b) == (num_rank(a, b) == Some(Rank::Equal)),
        num_lt(a, b) == (num_rank(a, b) == Some(Rank::Less)),
        num_lt(b, a) == (num_rank(a, b) == Some(Rank::Greater)),
        num_rank(a, b) is None <==> is_nan(a) || is_nan(b),
{
}

/// A NaN equals nothing, itself included; the two zeros are equal.
pub proof fn law_nan_and_zeros(a: u64)
    ensures
        is_nan(a) ==> forall|b: u64| !num_eq(a, b) && !num_eq(b, a),
        !is_nan(a) ==> num_eq(a, a),
        num_eq(0, SIGN),
        negated(negated(a)) == a,
{
}


/// The conversion to an unsigned integer stays within its bounds.
pub proof fn law_unsigned_in_range(b: u64, top: int)
    requires
        top >= 0,
    ensures
        0 <= to_unsigned(b, top) <= top,
{
    if is_finite(b) {
        lemma_whole_part_nonnegative(b);
    }
}

/// The conversion to a signed integer stays within its bounds.
pub proof fn law_signed_in_range(b: u64)
    ensures
        i64::MIN <= to_signed(b) <= i64::MAX,
{
    if is_finite(b) {
        lemma_whole_part_nonnegative(b);
    }
}

pub(crate) proof fn lemma_whole_part_nonnegative(b: u64)
    ensures
        whole_part(b) >= 0,
{
    let e = expo(b);
    if 1023 <= e < 1075 {
        let p = pow2((1075 - e) as nat) as int;
        lemma_pow2_pos((1075 - e) as nat);
        assert(significand(b) / p >= 0) by (nonlinear_arith)
            requires
                significand(b) >= 0,
                p > 0,
        ;
    } else if e >= 1075 {
        let p = pow2((e - 1075) as nat) as int;
        lemma_pow2_pos((e - 1075) as nat);
        assert(significand(b) * p >= 0) by (nonlinear_arith)
            requires
                significand(b) >= 0,
                p > 0,
        ;
    }
}

/// The integer part of a number with an exponent lies between the powers of two that the exponent says.
proof fn lemma_whole_bounds(b: u64)
    requires
        is_finite(b),
        expo(b) >= 1023,
    ensures
        pow2((expo(b) - 1023) as nat) <= whole_part(b) < pow2((expo(b) - 1022) as nat),
{
    let e = expo(b);
    let s = significand(b);
    lemma2_to64();
    lemma2_to64_rest();
    assert(0x10_0000_0000_0000 <= s < 0x20_0000_0000_0000);
    if e < 1075 {
        let p = pow2((1075 - e) as nat) as int;
        let low = pow2((e - 1023) as nat) as int;
        let high = pow2((e - 1022) as nat) as int;
        lemma_pow2_pos((1075 - e) as nat);
        lemma_pow2_adds((e - 1023) as nat, (1075 - e) as nat);
        lemma_pow2_adds((e - 1022) as nat, (1075 - e) as nat);
        assert(low * p == 0x10_0000_0000_0000 && high * p == 0x20_0000_0000_0000);
        vstd::arithmetic::div_mod::lemma_div_is_ordered(low * p, s, p);
        vstd::arithmetic::div_mod::lemma_div_multiples_vanish(low, p);
        vstd::arithmetic::mul::lemma_mul_is_commutative(low, p);
        vstd::arithmetic::div_mod::lemma_fundamental_div_mod(s, p);
        assert(s / p < high) by (nonlinear_arith)
            requires
                s == p * (s / p) + s % p,
                s % p >= 0,
                s < high * p,
                p > 0,
        ;
    } else {
        let p = pow2((e - 1075) as nat) as int;
        lemma_pow2_pos((e - 1075) as nat);
        lemma_pow2_adds(52, (e - 1075) as nat);
        lemma_pow2_adds(53, (e - 1075) as nat);
        assert(0x10_0000_0000_0000 * p <= s * p < 0x20_0000_0000_0000 * p) by (nonlinear_arith)
            requires
                0x10_0000_0000_0000 <= s < 0x20_0000_0000_0000,
                p > 0,
        ;
    }
}

/// The order of numbers follows what they are: of two finite numbers that are not negative the smaller one has no larger
/// integer part, and turning both signs turns the order.
pub proof fn law_order_follows_integers(a: u64, b: u64)
    ensures
        is_finite(a) && is_finite(b) && !negative(a) && !negative(b) && num_lt(a, b) ==> whole_part(a) <= whole_part(b),
        num_lt(a, b) <==> num_lt(negated(b), negated(a)),
        negative(a) && !negative(b) && !is_zero(a) && !is_nan(a) && !is_nan(b) ==> num_lt(a, b),
{
    if is_finite(a) && is_finite(b) && !negative(a) && !negative(b) && num_lt(a, b) {
        let e = expo(a);
        let g = expo(b);
        lemma_whole_part_nonnegative(b);
        assert(e <= g);
        if e < 1023 {
        } else if e < g {
            lemma_whole_bounds(a);
            lemma_whole_bounds(b);
            lemma_pow2_strictly_increases_upto((e - 1022) as nat, (g - 1023) as nat);
        } else {
            let x = significand(a);
            let y = significand(b);
            assert(x <= y);
            if e < 1075 {
                let p = pow2((1075 - e) as nat) as int;
                lemma_pow2_pos((1075 - e) as nat);
                vstd::arithmetic::div_mod::lemma_div_is_ordered(x, y, p);
            } else {
                let p = pow2((e - 1075) as nat) as int;
                lemma_pow2_pos((e - 1075) as nat);
                assert(x * p <= y * p) by (nonlinear_arith)
                    requires
                        x <= y,
                        p > 0,
                ;
            }
        }
    }
}

/// The conversions to integers cut off the fraction and stop at their bounds: what is no number is zero, and what is
/// below zero is zero where there is no sign.
pub proof fn law_conversions(b: u64, top: int)
    requires
        top >= 0,
    ensures
        is_nan(b) ==> to_unsigned(b, top) == 0 && to_signed(b) == 0,
        is_finite(b) && !negative(b) && whole_part(b) <= top ==> to_unsigned(b, top) == whole_part(b),
        is_finite(b) && !negative(b) && whole_part(b) > top ==> to_unsigned(b, top) == top,
        b == INF ==> to_unsigned(b, top) == top && to_signed(b) == 0x7fff_ffff_ffff_ffff,
        negative(b) ==> to_unsigned(b, top) == 0,
        is_finite(b) && whole_part(b) <= 0x7fff_ffff_ffff_ffff ==> to_signed(b) == integer(b),
        b == negated(INF) ==> to_signed(b) == -0x8000_0000_0000_0000,
        is_finite(b) && negative(b) && whole_part(b) > 0x8000_0000_0000_0000 ==> to_signed(b) == -0x8000_0000_0000_0000,
        is_finite(b) && !negative(b) && whole_part(b) > 0x7fff_ffff_ffff_ffff ==> to_signed(b) == 0x7fff_ffff_ffff_ffff,
{
}

/// The integer part of a number is the largest integer that is no larger than it: with the exponent taken off it, the
/// number lies at or above it and below the next one.
pub proof fn law_integer_parts(b: u64)
    requires
        is_finite(b),
        1023 <= expo(b) < 1075,
    ensures
        ({
            let p = pow2((1075 - expo(b)) as nat) as int;
            whole_part(b) * p <= significand(b) < (whole_part(b) + 1) * p
        }),
        is_whole(b) <==> whole_part(b) * pow2((1075 - expo(b)) as nat) == significand(b),
{
    let p = pow2((1075 - expo(b)) as nat) as int;
    let s = significand(b);
    lemma_pow2_pos((1075 - expo(b)) as nat);
    vstd::arithmetic::div_mod::lemma_fundamental_div_mod(s, p);
    vstd::arithmetic::div_mod::lemma_mod_bound(s, p);
    assert(p * (s / p) == (s / p) * p) by (nonlinear_arith);
    assert((s / p + 1) * p == (s / p) * p + p) by (nonlinear_arith);
}

}

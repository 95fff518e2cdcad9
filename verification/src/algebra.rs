//! Laws of the operators: how what they make of values hangs together.

use vstd::prelude::*;

use crate::ast::{BinOp, UnOp};
use crate::chars::{law_text_order, Rank};
use crate::num::{
    counts, exact_to, integer, is_finite, is_nan, is_whole, negated, num_eq, num_lt, size, to_signed, to_unsigned,
    FloatOp,
};
use crate::ops::{
    column, combined, compare, compare_from, first_bad_row, first_unnumbered, indexed, lane_sum,
    mat_mat_from, member_at, rgba, sum_of, swizzle, transformed, type_word, vec_mat, xyzw, Verdict,
};
use crate::value::{depth, elements, lemma_depth_element, truthy, val_eq, Val};

verus! {

/// What an operator makes of two values, without the message.
pub open spec fn result(op: BinOp, a: Val, b: Val, f: spec_fn(FloatOp, u64, u64) -> u64) -> Val {
    combined(op, a, b, f).0
}

/// Whether an operator holds of two values.
pub open spec fn holds(op: BinOp, a: Val, b: Val, f: spec_fn(FloatOp, u64, u64) -> u64) -> bool {
    result(op, a, b, f) == Val::Bool(true)
}

/// Whether an operator is decided of two values: it holds or it does not.
pub open spec fn decided(op: BinOp, a: Val, b: Val, f: spec_fn(FloatOp, u64, u64) -> u64) -> bool {
    result(op, a, b, f) is Bool
}

/// On two numbers that are numbers, two texts or two truth values, exactly one of `<`, `==` and `>` holds,
/// `>=` holds exactly where `<` does not, `<=` exactly where `>` does not, and turning the two around turns
/// `<` into `>`.
pub proof fn law_comparisons(a: Val, b: Val, f: spec_fn(FloatOp, u64, u64) -> u64)
    requires
        match (a, b) {
            (Val::Num(x), Val::Num(y)) => !is_nan(x) && !is_nan(y),
            (Val::Str(_), Val::Str(_)) => true,
            (Val::Bool(_), Val::Bool(_)) => true,
            _ => false,
        },
    ensures
        decided(BinOp::Lt, a, b, f) && decided(BinOp::Le, a, b, f) && decided(BinOp::Gt, a, b, f) && decided(
            BinOp::Ge,
            a,
            b,
            f,
        ) && decided(BinOp::Eq, a, b, f) && decided(BinOp::Ne, a, b, f),
        holds(BinOp::Ge, a, b, f) <==> !holds(BinOp::Lt, a, b, f),
        holds(BinOp::Le, a, b, f) <==> !holds(BinOp::Gt, a, b, f),
        holds(BinOp::Ne, a, b, f) <==> !holds(BinOp::Eq, a, b, f),
        holds(BinOp::Eq, a, b, f) ==> holds(BinOp::Ge, a, b, f) && holds(BinOp::Le, a, b, f),
        holds(BinOp::Lt, a, b, f) ==> !holds(BinOp::Gt, a, b, f) && !holds(BinOp::Eq, a, b, f),
        holds(BinOp::Gt, a, b, f) ==> !holds(BinOp::Eq, a, b, f),
        holds(BinOp::Lt, a, b, f) || holds(BinOp::Eq, a, b, f) || holds(BinOp::Gt, a, b, f),
        holds(BinOp::Lt, a, b, f) <==> holds(BinOp::Gt, b, a, f),
        holds(BinOp::Le, a, b, f) <==> holds(BinOp::Ge, b, a, f),
        holds(BinOp::Eq, a, b, f) <==> holds(BinOp::Eq, b, a, f),
{
    match (a, b) {
        (Val::Str(x), Val::Str(y)) => {
            law_text_order(x, y);
        },
        _ => {},
    }
}

/// `<` on numbers is their order, on truth values `false` comes before `true`, and on texts the first
/// characters that differ decide.
pub proof fn law_less(x: u64, y: u64, s: Seq<char>, t: Seq<char>, i: int, f: spec_fn(FloatOp, u64, u64) -> u64)
    ensures
        holds(BinOp::Lt, Val::Num(x), Val::Num(y), f) <==> num_lt(x, y),
        holds(BinOp::Gt, Val::Num(x), Val::Num(y), f) <==> num_lt(y, x),
        holds(BinOp::Le, Val::Num(x), Val::Num(y), f) <==> num_lt(x, y) || num_eq(x, y),
        holds(BinOp::Ge, Val::Num(x), Val::Num(y), f) <==> num_lt(y, x) || num_eq(x, y),
        holds(BinOp::Eq, Val::Num(x), Val::Num(y), f) <==> num_eq(x, y),
        holds(BinOp::Lt, Val::Bool(false), Val::Bool(true), f),
        !holds(BinOp::Lt, Val::Bool(true), Val::Bool(false), f),
        0 <= i < s.len() && i < t.len() && s.take(i) == t.take(i) && (s[i] as int) < (t[i] as int) ==> holds(
            BinOp::Lt,
            Val::Str(s),
            Val::Str(t),
            f,
        ),
        s.len() < t.len() && t.take(s.len() as int) == s ==> holds(BinOp::Lt, Val::Str(s), Val::Str(t), f),
{
    if 0 <= i < s.len() && i < t.len() && s.take(i) == t.take(i) && (s[i] as int) < (t[i] as int) {
        lemma_text_less(s, t, i);
    }
    if s.len() < t.len() && t.take(s.len() as int) == s {
        lemma_text_prefix(s, t);
    }
}

proof fn lemma_text_less(s: Seq<char>, t: Seq<char>, i: int)
    requires
        0 <= i < s.len(),
        i < t.len(),
        s.take(i) == t.take(i),
        (s[i] as int) < (t[i] as int),
    ensures
        crate::chars::text_lt(s, t),
    decreases i,
{
    if i > 0 {
        assert(s[0] == s.take(i)[0] && t[0] == t.take(i)[0]);
        let a = s.drop_first();
        let b = t.drop_first();
        assert(a.take(i - 1) =~= s.take(i).drop_first());
        assert(b.take(i - 1) =~= t.take(i).drop_first());
        lemma_text_less(a, b, i - 1);
    }
}

proof fn lemma_text_prefix(s: Seq<char>, t: Seq<char>)
    requires
        s.len() < t.len(),
        t.take(s.len() as int) == s,
    ensures
        crate::chars::text_lt(s, t),
    decreases s.len(),
{
    if s.len() > 0 {
        assert(t.take(s.len() as int)[0] == t[0]);
        assert(t.drop_first().take(s.len() - 1) =~= t.take(s.len() as int).drop_first());
        lemma_text_prefix(s.drop_first(), t.drop_first());
    }
}

/// Where a comparison of any two values is decided, `<` and `>` do not both hold, `>=` does not hold where
/// `<` does nor `<=` where `>` does, and of vectors one of them always holds.
pub proof fn law_comparisons_exclude(a: Val, b: Val, f: spec_fn(FloatOp, u64, u64) -> u64)
    ensures
        decided(BinOp::Lt, a, b, f) <==> decided(BinOp::Ge, a, b, f),
        decided(BinOp::Lt, a, b, f) <==> decided(BinOp::Gt, a, b, f),
        decided(BinOp::Lt, a, b, f) <==> decided(BinOp::Le, a, b, f),
        holds(BinOp::Lt, a, b, f) ==> holds(BinOp::Le, a, b, f) && !holds(BinOp::Gt, a, b, f) && !holds(
            BinOp::Ge,
            a,
            b,
            f,
        ),
        holds(BinOp::Gt, a, b, f) ==> holds(BinOp::Ge, a, b, f) && !holds(BinOp::Le, a, b, f),
        elements(a) is Some && elements(b) is Some && decided(BinOp::Lt, a, b, f) ==> holds(BinOp::Lt, a, b, f)
            || holds(BinOp::Ge, a, b, f),
        elements(a) is Some && elements(b) is Some && decided(BinOp::Lt, a, b, f) ==> holds(BinOp::Gt, a, b, f)
            || holds(BinOp::Le, a, b, f),
{
    if elements(a) is Some && elements(b) is Some {
        lemma_vectors_placed(depth(a), elements(a)->Some_0, elements(b)->Some_0, 0, f);
        assert forall|i: int| 0 <= i < elements(a)->Some_0.len() implies depth(
            #[trigger] elements(a)->Some_0[i],
        ) < depth(a) by {
            lemma_depth_element(a, i);
        }
    }
}

proof fn lemma_vectors_placed(d: nat, x: Seq<Val>, y: Seq<Val>, i: nat, f: spec_fn(FloatOp, u64, u64) -> u64)
    ensures
        (forall|k: int| 0 <= k < x.len() ==> depth(#[trigger] x[k]) < d) ==> !(compare_from(
            d,
            x,
            y,
            i,
            f,
        ) is Nan),
    decreases x.len() - i,
{
    if i < x.len() && i < y.len() {
        lemma_vectors_placed(d, x, y, i + 1, f);
    }
}

/// The first pair of numbers that differs decides how two vectors of numbers compare; where one vector only
/// goes on where the other has ended, the shorter one is less.
pub proof fn law_vectors_compare(x: Seq<u64>, y: Seq<u64>, i: int, f: spec_fn(FloatOp, u64, u64) -> u64)
    requires
        0 <= i <= x.len(),
        i <= y.len(),
        forall|k: int| 0 <= k < i ==> num_eq(#[trigger] x[k], y[k]),
    ensures
        i < x.len() && i < y.len() && num_lt(x[i], y[i]) ==> holds(
            BinOp::Lt,
            Val::NumList(x),
            Val::NumList(y),
            f,
        ) && holds(BinOp::Gt, Val::NumList(y), Val::NumList(x), f),
        i == x.len() && x.len() < y.len() ==> holds(BinOp::Lt, Val::NumList(x), Val::NumList(y), f) && holds(
            BinOp::Gt,
            Val::NumList(y),
            Val::NumList(x),
            f,
        ),
        i == x.len() && x.len() == y.len() ==> holds(BinOp::Ge, Val::NumList(x), Val::NumList(y), f) && holds(
            BinOp::Le,
            Val::NumList(x),
            Val::NumList(y),
            f,
        ),
{
    let a = elements(Val::NumList(x))->Some_0;
    let b = elements(Val::NumList(y))->Some_0;
    lemma_equal_start(a, b, 0, i as nat, f);
    assert forall|k: int| 0 <= k < i implies compare(#[trigger] b[k], a[k], f) == Verdict::Placed(Rank::Equal) by {
        assert(num_eq(x[k], y[k]));
    }
    assert forall|k: int| 0 <= k < i implies compare(#[trigger] a[k], b[k], f) == Verdict::Placed(Rank::Equal) by {
        assert(num_eq(x[k], y[k]));
    }
    lemma_equal_start(b, a, 0, i as nat, f);
    if i < x.len() && i < y.len() && num_lt(x[i], y[i]) {
        assert(compare(a[i], b[i], f) == Verdict::Placed(Rank::Less));
        assert(compare(b[i], a[i], f) == Verdict::Placed(Rank::Greater));
        assert(compare_from(1, a, b, i as nat, f) == Verdict::Placed(Rank::Less));
        assert(compare_from(1, b, a, i as nat, f) == Verdict::Placed(Rank::Greater));
    }
}

proof fn lemma_equal_start(a: Seq<Val>, b: Seq<Val>, k: nat, n: nat, f: spec_fn(FloatOp, u64, u64) -> u64)
    requires
        k <= n <= a.len(),
        n <= b.len(),
        forall|j: int| 0 <= j < a.len() ==> depth(#[trigger] a[j]) == 0,
    ensures
        (forall|j: int| 0 <= j < n ==> compare(#[trigger] a[j], b[j], f) == Verdict::Placed(Rank::Equal))
            ==> compare_from(1, a, b, k, f) == compare_from(1, a, b, n, f),
    decreases n - k,
{
    if k < n {
        lemma_equal_start(a, b, k + 1, n, f);
        if forall|j: int| 0 <= j < n ==> compare(#[trigger] a[j], b[j], f) == Verdict::Placed(Rank::Equal) {
            assert(compare(a[k as int], b[k as int], f) == Verdict::Placed(Rank::Equal));
            assert(depth(a[k as int]) == 0);
        }
    }
}

/// Values of different types are never equal, and of two that are ordered neither comes first; both list
/// forms are one type.
pub proof fn law_types_do_not_mix(a: Val, b: Val, f: spec_fn(FloatOp, u64, u64) -> u64)
    requires
        type_word(a) != type_word(b),
    ensures
        holds(BinOp::Ne, a, b, f),
        !holds(BinOp::Eq, a, b, f),
        result(BinOp::Lt, a, b, f) is Undef,
        result(BinOp::Le, a, b, f) is Undef,
        result(BinOp::Gt, a, b, f) is Undef,
        result(BinOp::Ge, a, b, f) is Undef,
        combined(BinOp::Lt, a, b, f).1 == Some(
            "undefined operation ("@ + type_word(a) + " "@ + "<"@ + " "@ + type_word(b) + ")"@,
        ),
        combined(BinOp::Le, a, b, f).1 == Some(
            "undefined operation ("@ + type_word(a) + " "@ + "<="@ + " "@ + type_word(b) + ")"@,
        ),
        combined(BinOp::Gt, a, b, f).1 == Some(
            "undefined operation ("@ + type_word(a) + " "@ + ">"@ + " "@ + type_word(b) + ")"@,
        ),
        combined(BinOp::Ge, a, b, f).1 == Some(
            "undefined operation ("@ + type_word(a) + " "@ + ">="@ + " "@ + type_word(b) + ")"@,
        ),
{
}

/// The arithmetic of numbers is the float unit's: `+`, `-`, `*`, `/`, the remainder for `%` and the power
/// for `^`, of the left number by the right one.
pub proof fn law_number_arithmetic(x: u64, y: u64, f: spec_fn(FloatOp, u64, u64) -> u64)
    ensures
        combined(BinOp::Add, Val::Num(x), Val::Num(y), f) == (Val::Num(f(FloatOp::Add, x, y)), None::<Seq<char>>),
        combined(BinOp::Sub, Val::Num(x), Val::Num(y), f) == (Val::Num(f(FloatOp::Sub, x, y)), None::<Seq<char>>),
        combined(BinOp::Mul, Val::Num(x), Val::Num(y), f) == (Val::Num(f(FloatOp::Mul, x, y)), None::<Seq<char>>),
        combined(BinOp::Div, Val::Num(x), Val::Num(y), f) == (Val::Num(f(FloatOp::Div, x, y)), None::<Seq<char>>),
        combined(BinOp::Mod, Val::Num(x), Val::Num(y), f) == (Val::Num(f(FloatOp::Rem, x, y)), None::<Seq<char>>),
        combined(BinOp::Pow, Val::Num(x), Val::Num(y), f) == (Val::Num(f(FloatOp::Pow, x, y)), None::<Seq<char>>),
{
}

/// Adding and subtracting vectors adds and subtracts their elements, at the same place in both, at any depth;
/// an element without a partner is dropped, and two elements that cannot be added give `undef` in their place
/// without a message.
pub proof fn law_vectors_add_by_element(op: BinOp, a: Val, b: Val, i: int, f: spec_fn(FloatOp, u64, u64) -> u64)
    requires
        op == BinOp::Add || op == BinOp::Sub,
        elements(a) matches Some(x) && 0 <= i < x.len(),
        elements(b) matches Some(y) && i < y.len(),
    ensures
        elements(result(op, a, b, f)) matches Some(z) && i < z.len() && z[i] == result(
            op,
            elements(a)->Some_0[i],
            elements(b)->Some_0[i],
            f,
        ),
        combined(op, a, b, f).1 is None,
{
    lemma_depth_element(a, i);
    let k = if op == BinOp::Add {
        FloatOp::Add
    } else {
        FloatOp::Sub
    };
    let x = elements(a)->Some_0[i];
    let y = elements(b)->Some_0[i];
    assert(result(op, x, y, f) == sum_of(k, x, y, f));
}

/// A number times a vector multiplies each of its elements, from either side, and at any depth.
pub proof fn law_scaling(s: u64, v: Val, i: int, f: spec_fn(FloatOp, u64, u64) -> u64)
    requires
        elements(v) matches Some(x) && 0 <= i < x.len(),
    ensures
        result(BinOp::Mul, Val::Num(s), v, f) == result(BinOp::Mul, v, Val::Num(s), f),
        elements(result(BinOp::Mul, v, Val::Num(s), f)) matches Some(z) && z.len()
            == elements(v)->Some_0.len() && match v {
            Val::NumList(xs) => z[i] == Val::Num(f(FloatOp::Mul, xs[i], s)),
            _ => z[i] == result(BinOp::Mul, Val::Num(s), elements(v)->Some_0[i], f),
        },
        elements(result(BinOp::Div, v, Val::Num(s), f)) matches Some(z) && z.len()
            == elements(v)->Some_0.len() && z[i] == result(
            BinOp::Div,
            elements(v)->Some_0[i],
            Val::Num(s),
            f,
        ),
        elements(result(BinOp::Div, Val::Num(s), v, f)) matches Some(z) && z.len()
            == elements(v)->Some_0.len() && z[i] == result(
            BinOp::Div,
            Val::Num(s),
            elements(v)->Some_0[i],
            f,
        ),
{
}

/// Negating a vector negates each of its elements, at any depth; negating twice gives a vector of numbers
/// back; and a number is negated by turning its sign.
pub proof fn law_negation(x: u64, xs: Seq<u64>, v: Val, i: int, f: spec_fn(FloatOp, u64, u64) -> u64)
    ensures
        transformed(UnOp::Neg, Val::Num(x), f).0 == Val::Num(negated(x)),
        transformed(UnOp::Neg, transformed(UnOp::Neg, Val::NumList(xs), f).0, f).0 == Val::NumList(xs),
        (elements(v) matches Some(es) && 0 <= i < es.len()) ==> (elements(
            transformed(UnOp::Neg, v, f).0,
        ) matches Some(z) && z.len() == elements(v)->Some_0.len() && z[i] == transformed(
            UnOp::Neg,
            elements(v)->Some_0[i],
            f,
        ).0),
        transformed(UnOp::Pos, v, f) == (v, None::<Seq<char>>),
{
    let twice = transformed(UnOp::Neg, transformed(UnOp::Neg, Val::NumList(xs), f).0, f).0;
    assert(twice->NumList_0 =~= xs);
}

/// The connectives go by what counts as true: both, one of two, not; and whichever way round they are taken
/// together.
pub proof fn law_connectives(a: Val, b: Val, f: spec_fn(FloatOp, u64, u64) -> u64)
    ensures
        result(BinOp::And, a, b, f) == Val::Bool(truthy(a) && truthy(b)),
        result(BinOp::Or, a, b, f) == Val::Bool(truthy(a) || truthy(b)),
        transformed(UnOp::Not, a, f).0 == Val::Bool(!truthy(a)),
        transformed(UnOp::Not, result(BinOp::And, a, b, f), f).0 == result(
            BinOp::Or,
            transformed(UnOp::Not, a, f).0,
            transformed(UnOp::Not, b, f).0,
            f,
        ),
{
}

/// What counts as false is `undef`, `false`, either zero, an empty text, an empty vector in either form and
/// an object without members; everything else counts as true, a value that is no number too.
pub proof fn law_truth(v: Val)
    ensures
        v is Undef ==> !truthy(v),
        v matches Val::Bool(b) ==> truthy(v) == b,
        v matches Val::Num(x) ==> (truthy(v) <==> !num_eq(x, 0)),
        v matches Val::Str(s) ==> (truthy(v) <==> s.len() > 0),
        elements(v) matches Some(xs) ==> (truthy(v) <==> xs.len() > 0),
        v matches Val::Object(ms) ==> (truthy(v) <==> ms.len() > 0),
        v is Range || v is Function ==> truthy(v),
{
}

/// The operators on bits work on the whole parts of numbers: a bit of `|` is set where one is set in either,
/// of `&` in both; and `~` counts down from below zero as its number counts up from zero.
pub proof fn law_bits(x: u64, y: u64, n: u32, f: spec_fn(FloatOp, u64, u64) -> u64)
    requires
        n < 64,
    ensures
        exists|r: i64|
            result(BinOp::BitOr, Val::Num(x), Val::Num(y), f) == Val::Num(#[trigger] f(FloatOp::FromInt, r as u64, 0))
                && (r >> n & 1 == 1 <==> (to_signed(x) as i64) >> n & 1 == 1 || (to_signed(y) as i64) >> n & 1 == 1),
        exists|r: i64|
            result(BinOp::BitAnd, Val::Num(x), Val::Num(y), f) == Val::Num(#[trigger] f(FloatOp::FromInt, r as u64, 0))
                && (r >> n & 1 == 1 <==> (to_signed(x) as i64) >> n & 1 == 1 && (to_signed(y) as i64) >> n & 1 == 1),
        transformed(UnOp::BitNot, Val::Num(x), f).0 == Val::Num(
            f(FloatOp::FromInt, (-1 - to_signed(x)) as i64 as u64, 0),
        ),
{
    let a = to_signed(x) as i64;
    let b = to_signed(y) as i64;
    let either = a | b;
    let both = a & b;
    let none = !a;
    assert(either >> n & 1 == 1 <==> a >> n & 1 == 1 || b >> n & 1 == 1) by (bit_vector)
        requires
            either == a | b,
            n < 64,
    ;
    assert(both >> n & 1 == 1 <==> a >> n & 1 == 1 && b >> n & 1 == 1) by (bit_vector)
        requires
            both == a & b,
            n < 64,
    ;
    crate::num::law_signed_in_range(x);
    assert(none == -1 - a) by (bit_vector)
        requires
            none == !a,
    ;
    assert(result(BinOp::BitOr, Val::Num(x), Val::Num(y), f) == Val::Num(f(FloatOp::FromInt, either as u64, 0)));
    assert(result(BinOp::BitAnd, Val::Num(x), Val::Num(y), f) == Val::Num(f(FloatOp::FromInt, both as u64, 0)));
}

/// A shift moves the whole part of a number: by one place to the left doubles it where that fits, by one to
/// the right halves it downward; a shift by nothing leaves it. By less than nothing, and by sixty-four or
/// more, there is no shift.
pub proof fn law_shifts(x: u64, y: u64, f: spec_fn(FloatOp, u64, u64) -> u64)
    ensures
        ({
            let a = to_signed(x);
            let by = to_signed(y);
            let left = combined(BinOp::Shl, Val::Num(x), Val::Num(y), f);
            let right = combined(BinOp::Shr, Val::Num(x), Val::Num(y), f);
            &&& by == 0 ==> left.0 == Val::Num(f(FloatOp::FromInt, a as i64 as u64, 0)) && right.0 == left.0
            &&& by == 1 && -0x4000_0000_0000_0000 <= a < 0x4000_0000_0000_0000 ==> left.0 == Val::Num(
                f(FloatOp::FromInt, (2 * a) as i64 as u64, 0),
            )
            &&& by == 1 ==> right.0 == Val::Num(f(FloatOp::FromInt, (a / 2) as i64 as u64, 0))
            &&& by < 0 ==> left.0 is Undef && right.0 is Undef && left.1 == Some("negative shift"@) && right.1
                == left.1
            &&& by >= 64 ==> left.0 is Undef && right.0 is Undef && left.1 == Some("shift too large"@) && right.1
                == left.1
            &&& 0 <= by < 64 ==> left.1 is None && right.1 is None
        }),
{
    crate::num::law_signed_in_range(x);
    let a = to_signed(x) as i64;
    assert(a << 0u32 == a && a >> 0u32 == a) by (bit_vector);
    if -0x4000_0000_0000_0000 <= a < 0x4000_0000_0000_0000 {
        assert(a << 1u32 == 2 * a) by (bit_vector)
            requires
                -0x4000_0000_0000_0000 <= a < 0x4000_0000_0000_0000,
        ;
    }
    lemma_halved(a);
}

proof fn lemma_halved(a: i64)
    ensures
        (a >> 1u32) as int == a as int / 2,
{
    let h = a >> 1u32;
    let low = a & 1;
    assert(low == 0 || low == 1) by (bit_vector)
        requires
            low == a & 1,
    ;
    assert(h as i128 * 2 + low as i128 == a as i128) by (bit_vector)
        requires
            h == a >> 1u32,
            low == a & 1,
    ;
}

/// An element of a vector, a character of a text and a part of a range are taken by the whole part of a
/// number from zero on; beyond the end, below zero and by anything else there is `undef`.
pub proof fn law_indexing(base: Val, key: Val, i: u64, f: spec_fn(FloatOp, u64, u64) -> u64)
    requires
        !(base is Object),
    ensures
        ({
            let n = to_unsigned(i, u64::MAX as int);
            let r = indexed(base, Val::Num(i));
            &&& is_finite(i) && !num_lt(i, 0) ==> {
                &&& elements(base) matches Some(xs) ==> r == if n < xs.len() { xs[n] } else { Val::Undef }
                &&& base matches Val::Str(s) ==> r == if n < s.len() { Val::Str(seq![s[n]]) } else { Val::Undef }
                &&& base matches Val::Range { start, step, end } ==> r == if n == 0 {
                    Val::Num(start)
                } else if n == 1 {
                    Val::Num(step)
                } else if n == 2 {
                    Val::Num(end)
                } else {
                    Val::Undef
                }
            }
            &&& !is_finite(i) || num_lt(i, 0) ==> r is Undef
        }),
        !(key is Num) ==> indexed(base, key) is Undef,
        base is Undef || base is Bool || base is Num || base is Function ==> indexed(base, key) is Undef,
{
}

/// A letter of `xyzw`, or of `rgba`, takes the component at its place; several letters make the vector of
/// what each of them takes, where all of them take something.
pub proof fn law_members(base: Val, c: char, d: char)
    requires
        elements(base) is Some,
    ensures
        ({
            let xs = elements(base)->Some_0;
            let one = member_at(base, seq![c]);
            &&& c == 'x' || c == 'r' ==> one == if xs.len() > 0 { xs[0] } else { Val::Undef }
            &&& c == 'y' || c == 'g' ==> one == if xs.len() > 1 { xs[1] } else { Val::Undef }
            &&& c == 'z' || c == 'b' ==> one == if xs.len() > 2 { xs[2] } else { Val::Undef }
            &&& c == 'w' || c == 'a' ==> one == if xs.len() > 3 { xs[3] } else { Val::Undef }
            &&& (letter(c, "xyzw"@) && letter(d, "xyzw"@) || letter(c, "rgba"@) && letter(d, "rgba"@)) && !(one is Undef) && !(member_at(
                base,
                seq![d],
            ) is Undef) ==> elements(member_at(base, seq![c, d])) == Some(seq![one, member_at(base, seq![d])])
            &&& letter(c, "xyzw"@) && letter(d, "rgba"@) ==> member_at(base, seq![c, d]) is Undef
        }),
        member_at(base, Seq::empty()) is Undef,
{
    reveal_strlit("xyzw");
    reveal_strlit("rgba");
    let one = seq![c];
    let two = seq![c, d];
    assert(one.len() == 1 && one[0] == c);
    assert(two.len() == 2 && two[0] == c && two[1] == d);
    let xs = elements(base)->Some_0;
    if letter(c, "xyzw"@) {
        assert(xyzw(c) is Some && rgba(c) is None);
        assert forall|i: int| 0 <= i < one.len() implies xyzw(#[trigger] one[i]) is Some by {}
        assert(swizzle(one)->Some_0 =~= seq![xyzw(c)->Some_0]);
    }
    if letter(c, "rgba"@) {
        assert(rgba(c) is Some && xyzw(c) is None);
        assert(xyzw(one[0]) is None);
        assert(swizzle(one)->Some_0 =~= seq![rgba(c)->Some_0]);
    }
    let other = seq![d];
    assert(other.len() == 1 && other[0] == d);
    if letter(d, "xyzw"@) {
        assert(xyzw(d) is Some && rgba(d) is None);
        assert(swizzle(other)->Some_0 =~= seq![xyzw(d)->Some_0]);
    }
    if letter(d, "rgba"@) {
        assert(rgba(d) is Some && xyzw(d) is None);
        assert(xyzw(other[0]) is None);
        assert(swizzle(other)->Some_0 =~= seq![rgba(d)->Some_0]);
    }
    if letter(c, "xyzw"@) && letter(d, "xyzw"@) {
        assert(swizzle(two)->Some_0 =~= seq![xyzw(c)->Some_0, xyzw(d)->Some_0]);
        lemma_picked(base, two, xyzw(c)->Some_0, xyzw(d)->Some_0);
    }
    if letter(c, "rgba"@) && letter(d, "rgba"@) {
        assert(xyzw(two[0]) is None);
        assert(swizzle(two)->Some_0 =~= seq![rgba(c)->Some_0, rgba(d)->Some_0]);
        lemma_picked(base, two, rgba(c)->Some_0, rgba(d)->Some_0);
    }
    if letter(c, "xyzw"@) && letter(d, "rgba"@) {
        assert(rgba(two[0]) is None && xyzw(two[1]) is None);
    }
    let none = Seq::<char>::empty();
    assert(none.len() == 0);
}

proof fn lemma_picked(base: Val, field: Seq<char>, i: int, j: int)
    requires
        elements(base) is Some,
        field.len() == 2,
        swizzle(field) == Some(seq![i, j]),
        0 <= i,
        0 <= j,
    ensures
        i < elements(base)->Some_0.len() && j < elements(base)->Some_0.len() ==> elements(member_at(base, field))
            == Some(seq![elements(base)->Some_0[i], elements(base)->Some_0[j]]),
{
    let xs = elements(base)->Some_0;
    let picks = seq![i, j];
    if i < xs.len() && j < xs.len() {
        assert(picks[0] == i && picks[1] == j);
        let items = Seq::new(picks.len(), |k: int| xs[picks[k]]);
        assert(items =~= seq![xs[i], xs[j]]);
        crate::value::law_vector_keeps_elements(items);
    }
}

/// Whether a character is one of a text.
pub open spec fn letter(c: char, t: Seq<char>) -> bool {
    c == t[0] || c == t[1] || c == t[2] || c == t[3]
}

/// The sum of the products of the first `n` pairs of integers.
pub open spec fn sum_of_products(x: Seq<u64>, y: Seq<u64>, n: nat) -> int
    decreases n,
{
    if n == 0 {
        0
    } else {
        sum_of_products(x, y, (n - 1) as nat) + integer(x[n - 1]) * integer(y[n - 1])
    }
}

/// The sum of the sizes of those products.
pub open spec fn sum_of_sizes(x: Seq<u64>, y: Seq<u64>, n: nat) -> int
    decreases n,
{
    if n == 0 {
        0
    } else {
        sum_of_sizes(x, y, (n - 1) as nat) + size(integer(x[n - 1]) * integer(y[n - 1]))
    }
}

/// Two vectors of as many numbers multiply to the sum of their products: where the float unit is exact, to
/// exactly that.
pub proof fn law_dot_product(x: Seq<u64>, y: Seq<u64>, bound: int, f: spec_fn(FloatOp, u64, u64) -> u64)
    requires
        0 < x.len() == y.len(),
        forall|i: int| 0 <= i < x.len() ==> is_whole(#[trigger] x[i]),
        forall|i: int| 0 <= i < y.len() ==> is_whole(#[trigger] y[i]),
        exact_to(f, bound),
        sum_of_sizes(x, y, x.len()) <= bound,
    ensures
        result(BinOp::Mul, Val::NumList(x), Val::NumList(y), f) matches Val::Num(r) && counts(
            r,
            sum_of_products(x, y, x.len()),
        ),
{
    let n = x.len();
    lemma_lanes(x, y, n, bound, f);
    let a = lane_sum(x, y, 0, n, f);
    let b = lane_sum(x, y, 1, n, f);
    let c = lane_sum(x, y, 2, n, f);
    let d = lane_sum(x, y, 3, n, f);
    let ab = f(FloatOp::Add, a, b);
    let cd = f(FloatOp::Add, c, d);
    assert(counts(ab, integer(a) + integer(b)));
    assert(counts(cd, integer(c) + integer(d)));
    assert(counts(f(FloatOp::Add, ab, cd), integer(ab) + integer(cd)));
}

proof fn lemma_lanes(x: Seq<u64>, y: Seq<u64>, n: nat, bound: int, f: spec_fn(FloatOp, u64, u64) -> u64)
    requires
        n <= x.len() == y.len(),
        forall|i: int| 0 <= i < x.len() ==> is_whole(#[trigger] x[i]),
        forall|i: int| 0 <= i < y.len() ==> is_whole(#[trigger] y[i]),
        exact_to(f, bound),
        sum_of_sizes(x, y, n) <= bound,
    ensures
        ({
            let a = lane_sum(x, y, 0, n, f);
            let b = lane_sum(x, y, 1, n, f);
            let c = lane_sum(x, y, 2, n, f);
            let d = lane_sum(x, y, 3, n, f);
            &&& is_whole(a) && is_whole(b) && is_whole(c) && is_whole(d)
            &&& integer(a) + integer(b) + integer(c) + integer(d) == sum_of_products(x, y, n)
            &&& size(integer(a)) + size(integer(b)) + size(integer(c)) + size(integer(d)) <= sum_of_sizes(x, y, n)
        }),
    decreases n,
{
    if n > 0 {
        let m = (n - 1) as nat;
        lemma_lanes(x, y, m, bound, f);
        let p = f(FloatOp::Mul, x[n - 1], y[n - 1]);
        assert(is_whole(x[n - 1]) && is_whole(y[n - 1]));
        lemma_sizes(x, y, m);
        assert(counts(p, integer(x[n - 1]) * integer(y[n - 1])));
        let lane = (n - 1) % 4;
        let l = lane_sum(x, y, lane, m, f);
        assert(counts(f(FloatOp::Add, l, p), integer(l) + integer(p)));
        assert(lane == 0 || lane == 1 || lane == 2 || lane == 3);
    }
}

proof fn lemma_sizes(x: Seq<u64>, y: Seq<u64>, n: nat)
    ensures
        sum_of_sizes(x, y, n) >= 0,
    decreases n,
{
    if n > 0 {
        lemma_sizes(x, y, (n - 1) as nat);
    }
}

/// Vectors of numbers that differ in length, and an empty vector, multiply to `undef`, with a message that
/// says so.
pub proof fn law_products_that_fail(x: Seq<u64>, y: Seq<u64>, v: Val, f: spec_fn(FloatOp, u64, u64) -> u64)
    ensures
        x.len() != y.len() && x.len() > 0 && y.len() > 0 ==> combined(
            BinOp::Mul,
            Val::NumList(x),
            Val::NumList(y),
            f,
        ) == (
            Val::Undef,
            Some(
                "vector*vector requires matching lengths"@ + " ("@ + crate::chars::decimal(x.len()) + " != "@
                    + crate::chars::decimal(y.len()) + ")"@,
            ),
        ),
        elements(v) is Some ==> combined(BinOp::Mul, Val::NumList(Seq::empty()), v, f) == (
            Val::Undef,
            Some("Multiplication is undefined on empty vectors"@),
        ) && combined(BinOp::Mul, v, Val::NumList(Seq::empty()), f) == (
            Val::Undef,
            Some("Multiplication is undefined on empty vectors"@),
        ),
{
    let none = elements(Val::NumList(Seq::empty()))->Some_0;
    assert(none.len() == 0);
}

/// Whether a matrix has rows of `n` numbers each, and at least one.
pub open spec fn rows_of(m: Seq<Val>, n: nat) -> bool {
    m.len() > 0 && forall|i: int| 0 <= i < m.len() ==> ((#[trigger] m[i]) matches Val::NumList(r) && r.len() == n)
}

proof fn lemma_rows(m: Seq<Val>, n: nat, i: int)
    requires
        rows_of(m, n),
        0 <= i,
    ensures
        first_bad_row(m, n, i) is None,
        first_unnumbered(m, i) is None,
    decreases m.len() - i,
{
    if i < m.len() {
        assert(m[i] is NumList);
        lemma_rows(m, n, i + 1);
    }
}

/// A matrix times a vector is the vector of what each row of the matrix times it is.
pub proof fn law_matrix_times_vector(m: Seq<Val>, v: Seq<u64>, i: int, f: spec_fn(FloatOp, u64, u64) -> u64)
    requires
        rows_of(m, v.len()),
        v.len() > 0,
        0 <= i < m.len(),
    ensures
        result(BinOp::Mul, Val::List(m), Val::NumList(v), f) matches Val::NumList(z) && z.len() == m.len()
            && Val::Num(z[i]) == result(BinOp::Mul, m[i], Val::NumList(v), f),
{
    lemma_rows(m, v.len(), 0);
    assert(m[0] is NumList);
    assert(m[i] is NumList);
}

/// A vector times a matrix is the vector of what it times each column of the matrix is.
pub proof fn law_vector_times_matrix(v: Seq<u64>, m: Seq<Val>, n: nat, j: int, f: spec_fn(FloatOp, u64, u64) -> u64)
    requires
        rows_of(m, n),
        v.len() == m.len(),
        0 <= j < n,
    ensures
        result(BinOp::Mul, Val::NumList(v), Val::List(m), f) matches Val::NumList(z) && z.len() == n && Val::Num(
            z[j],
        ) == result(
            BinOp::Mul,
            Val::NumList(v),
            Val::NumList(Seq::new(m.len(), |i: int| m[i]->NumList_0[j])),
            f,
        ),
{
    lemma_rows(m, n, 0);
    assert(m[0] is NumList);
    assert(column(m, j) =~= Seq::new(m.len(), |i: int| m[i]->NumList_0[j]));
}

/// A matrix times a matrix has the rows that the rows of the first one times the second one are.
pub proof fn law_matrix_times_matrix(a: Seq<Val>, b: Seq<Val>, n: nat, i: int, f: spec_fn(FloatOp, u64, u64) -> u64)
    requires
        rows_of(a, b.len()),
        rows_of(b, n),
        0 <= i < a.len(),
    ensures
        result(BinOp::Mul, Val::List(a), Val::List(b), f) matches Val::List(z) && z.len() == a.len() && z[i]
            == result(BinOp::Mul, a[i], Val::List(b), f),
{
    assert(a[0] is NumList);
    lemma_rows(b, n, 0);
    assert(b[0] is NumList);
    lemma_product_rows(a, b, n, 0, Seq::empty(), f);
    assert(a[i] is NumList);
}

proof fn lemma_product_rows(
    a: Seq<Val>,
    b: Seq<Val>,
    n: nat,
    i: int,
    done: Seq<Val>,
    f: spec_fn(FloatOp, u64, u64) -> u64,
)
    requires
        rows_of(a, b.len()),
        rows_of(b, n),
        0 <= i <= a.len(),
        done.len() == i,
    ensures
        mat_mat_from(a, b, i, done, f).0 matches Val::List(z) && z.len() == a.len() && (forall|k: int|
            0 <= k < i ==> z[k] == #[trigger] done[k]) && forall|k: int|
            i <= k < a.len() ==> #[trigger] z[k] == vec_mat(a[k]->NumList_0, b, f).0,
    decreases a.len() - i,
{
    if i < a.len() {
        assert(a[i] is NumList);
        lemma_rows(b, n, 0);
        assert(b[0] is NumList);
        let v = vec_mat(a[i]->NumList_0, b, f).0;
        assert(v is NumList);
        lemma_product_rows(a, b, n, i + 1, done.push(v), f);
        let z = mat_mat_from(a, b, i, done, f).0->List_0;
        assert(z[i] == done.push(v)[i]);
        assert forall|k: int| 0 <= k < i implies z[k] == #[trigger] done[k] by {
            assert(done.push(v)[k] == done[k]);
        }
    }
}

/// Two vectors are equal exactly where they have as many elements and equal ones at each place, whichever
/// form they have.
pub proof fn law_equal_vectors(a: Val, b: Val, f: spec_fn(FloatOp, u64, u64) -> u64)
    requires
        elements(a) is Some,
        elements(b) is Some,
    ensures
        holds(BinOp::Eq, a, b, f) <==> {
            let x = elements(a)->Some_0;
            let y = elements(b)->Some_0;
            x.len() == y.len() && forall|i: int| 0 <= i < x.len() ==> holds(BinOp::Eq, #[trigger] x[i], y[i], f)
        },
{
    let x = elements(a)->Some_0;
    let y = elements(b)->Some_0;
    if x.len() == y.len() {
        if val_eq(a, b, f) {
            assert forall|i: int| 0 <= i < x.len() implies holds(BinOp::Eq, #[trigger] x[i], y[i], f) by {
                match (a, b) {
                    (Val::NumList(p), Val::NumList(q)) => {
                        assert(num_eq(p[i], q[i]));
                    },
                    (Val::List(p), Val::NumList(q)) => {
                        assert(p[i] is Num);
                    },
                    (Val::NumList(p), Val::List(q)) => {
                        assert(q[i] is Num);
                    },
                    _ => {},
                }
            }
        } else if forall|i: int| 0 <= i < x.len() ==> holds(BinOp::Eq, #[trigger] x[i], y[i], f) {
            match (a, b) {
                (Val::NumList(p), Val::NumList(q)) => {
                    assert forall|i: int| 0 <= i < p.len() implies num_eq(#[trigger] p[i], q[i]) by {
                        assert(holds(BinOp::Eq, x[i], y[i], f));
                    }
                },
                (Val::List(p), Val::NumList(q)) => {
                    assert forall|i: int| 0 <= i < p.len() implies ((#[trigger] p[i]) matches Val::Num(n) && num_eq(
                        q[i],
                        n,
                    )) by {
                        assert(holds(BinOp::Eq, x[i], y[i], f));
                    }
                },
                (Val::NumList(p), Val::List(q)) => {
                    assert forall|i: int| 0 <= i < p.len() implies ((#[trigger] q[i]) matches Val::Num(n) && num_eq(
                        p[i],
                        n,
                    )) by {
                        assert(holds(BinOp::Eq, x[i], y[i], f));
                    }
                },
                (Val::List(p), Val::List(q)) => {
                    assert forall|i: int| 0 <= i < p.len() implies val_eq(#[trigger] p[i], q[i], f) by {
                        assert(holds(BinOp::Eq, x[i], y[i], f));
                    }
                },
                _ => {},
            }
        }
    }
}

/// The other values are equal where they are the same: `undef`, texts character by character, truth values,
/// and functions by their code and the scope that they captured.
pub proof fn law_equal_values(a: Val, b: Val, f: spec_fn(FloatOp, u64, u64) -> u64)
    ensures
        a is Undef && b is Undef ==> holds(BinOp::Eq, a, b, f),
        (a matches Val::Str(x) && b matches Val::Str(y)) ==> (holds(BinOp::Eq, a, b, f) <==> a == b),
        (a matches Val::Bool(x) && b matches Val::Bool(y)) ==> (holds(BinOp::Eq, a, b, f) <==> a == b),
        a is Function && b is Function ==> (holds(BinOp::Eq, a, b, f) <==> a->closure_id == b->closure_id && a->env
            == b->env),
{
}

/// What an operator makes no sense of gives `undef`, and a message that names the types and the operator as
/// they are written.
pub proof fn law_undefined_operations(op: BinOp, a: Val, b: Val, f: spec_fn(FloatOp, u64, u64) -> u64)
    requires
        !(a is Num && b is Num),
        op == BinOp::Add || op == BinOp::Sub ==> elements(a) is None || elements(b) is None,
        op == BinOp::Mul ==> elements(a) is None && !(a is Num) || elements(b) is None && !(b is Num),
        op == BinOp::Div ==> !(b is Num && elements(a) is Some) && !(a is Num && elements(b) is Some),
        op == BinOp::Add || op == BinOp::Sub || op == BinOp::Mul || op == BinOp::Div || op == BinOp::Mod || op
            == BinOp::Pow || op == BinOp::BitAnd || op == BinOp::BitOr || op == BinOp::Shl || op == BinOp::Shr,
    ensures
        combined(op, a, b, f) == (
            Val::Undef,
            Some(
                "undefined operation ("@ + type_word(a) + " "@ + match op {
                    BinOp::Add => "+"@,
                    BinOp::Sub => "-"@,
                    BinOp::Mul => "*"@,
                    BinOp::Div => "/"@,
                    BinOp::Mod => "%"@,
                    BinOp::Pow => "^"@,
                    BinOp::BitAnd => "&"@,
                    BinOp::BitOr => "|"@,
                    BinOp::Shl => "<<"@,
                    _ => ">>"@,
                } + " "@ + type_word(b) + ")"@,
            ),
        ),
{
}

/// The types have the names that messages use; both forms of vector have one.
pub proof fn law_type_names(v: Val)
    ensures
        v is Undef ==> type_word(v) == "undefined"@,
        v is Bool ==> type_word(v) == "bool"@,
        v is Num ==> type_word(v) == "number"@,
        v is Str ==> type_word(v) == "string"@,
        elements(v) is Some ==> type_word(v) == "vector"@,
        v is Object ==> type_word(v) == "object"@,
        v is Range ==> type_word(v) == "range"@,
        v is Function ==> type_word(v) == "function"@,
        transformed(UnOp::Neg, v, |o: FloatOp, a: u64, b: u64| a).1 == if v is Num || elements(v) is Some {
            None
        } else {
            Some("undefined operation (-"@ + type_word(v) + ")"@)
        },
        transformed(UnOp::BitNot, v, |o: FloatOp, a: u64, b: u64| a).1 == if v is Num {
            None
        } else {
            Some("undefined operation (~"@ + type_word(v) + ")"@)
        },
{
}

/// A member of an object is found by its name, by an index as by a dot; a function among them is bound to the object, and
/// any other value stays as it is. A name that is no member gives `undef`, and so does an index that is no text.
pub proof fn law_object_members(ms: Seq<(Seq<char>, Val)>, name: Seq<char>, i: int, key: Val)
    requires
        crate::object::names_distinct(ms),
    ensures
        indexed(Val::Object(ms), Val::Str(name)) == member_at(Val::Object(ms), name),
        0 <= i < ms.len() && ms[i].0 == name ==> ({
            let v = member_at(Val::Object(ms), name);
            &&& !(ms[i].1 is Function) ==> v == ms[i].1
            &&& ms[i].1 is Function ==> (v matches Val::Function { bound_this, .. } && bound_this == Some(ms)) && v->closure_id
                == ms[i].1->closure_id && v->env == ms[i].1->env
        }),
        (forall|j: int| 0 <= j < ms.len() ==> (#[trigger] ms[j]).0 != name) ==> member_at(Val::Object(ms), name) is Undef,
        !(key is Str) ==> indexed(Val::Object(ms), key) is Undef,
{
    if 0 <= i < ms.len() && ms[i].0 == name {
        let p = crate::object::place_of(ms, name);
        assert(crate::object::has(ms, name));
        assert(0 <= p < ms.len() && ms[p].0 == name);
        if p < i {
            assert(ms[p].0 != ms[i].0);
        } else if i < p {
            assert(ms[i].0 != ms[p].0);
        }
    }
}

}

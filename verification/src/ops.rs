//! The algebra of values: binary and prefix operators, indexing and member access.
//!
//! Nothing here fails: an operand of the wrong type gives `undef`, and a message says why. A text
//! plus a text is `undef`; two vectors of equal length multiply to their dot product; adding
//! vectors stops at the shorter one; equality never coerces between types.

use std::rc::Rc;

use vstd::prelude::*;

use crate::ast::{BinOp, UnOp};
use crate::chars::{cat, cat3, cat5, chars_of, dec, decimal, same, text_rank, text_rank_of, Rank};
use crate::message::{lines, Line, Message};
use crate::num::{
    ask, finite, is_finite, less, negate, negated, num_lt, num_rank, rank, to_i64, to_signed, to_u64,
    to_unsigned, unit, unit_ok, FloatOp,
};
use crate::object::{member_value, members_of, ObjectMap};
use crate::value::{
    build_vector, depth, elements, lemma_depth_element, lemma_list_view, list_get, list_len,
    range_rank_of, range_seq_rank, truthy, val_eq, vals, vector_of, Val, Value,
};

verus! {

/// The name of a value's type in a message.
pub open spec fn type_word(v: Val) -> Seq<char> {
    match v {
        Val::Undef => "undefined"@,
        Val::Bool(_) => "bool"@,
        Val::Num(_) => "number"@,
        Val::Str(_) => "string"@,
        Val::NumList(_) => "vector"@,
        Val::List(_) => "vector"@,
        Val::Object(_) => "object"@,
        Val::Range { .. } => "range"@,
        Val::Function { .. } => "function"@,
    }
}

fn word(v: &Value) -> (r: &'static str)
    ensures
        r@ == type_word(v@),
{
    match v {
        Value::Undef => "undefined",
        Value::Bool(_) => "bool",
        Value::Num(_) => "number",
        Value::Str(_) => "string",
        Value::NumList(_) => "vector",
        Value::List(_) => "vector",
        Value::Object(_) => "object",
        Value::Range { .. } => "range",
        Value::Function { .. } => "function",
    }
}

/// The operator as a message shows it.
pub open spec fn symbol(op: BinOp) -> Seq<char> {
    match op {
        BinOp::Add => "+"@,
        BinOp::Sub => "-"@,
        BinOp::Mul => "*"@,
        BinOp::Div => "/"@,
        BinOp::Mod => "%"@,
        BinOp::Pow => "^"@,
        BinOp::Eq => "=="@,
        BinOp::Ne => "!="@,
        BinOp::Lt => "<"@,
        BinOp::Le => "<="@,
        BinOp::Gt => ">"@,
        BinOp::Ge => ">="@,
        BinOp::And => "&&"@,
        BinOp::Or => "||"@,
        BinOp::BitOr => "|"@,
        BinOp::BitAnd => "&"@,
        BinOp::Shl => "<<"@,
        BinOp::Shr => ">>"@,
    }
}

/// The operator as a message shows it.
pub fn op_symbol(op: BinOp) -> (r: &'static str)
    ensures
        r@ == symbol(op),
{
    match op {
        BinOp::Add => "+",
        BinOp::Sub => "-",
        BinOp::Mul => "*",
        BinOp::Div => "/",
        BinOp::Mod => "%",
        BinOp::Pow => "^",
        BinOp::Eq => "==",
        BinOp::Ne => "!=",
        BinOp::Lt => "<",
        BinOp::Le => "<=",
        BinOp::Gt => ">",
        BinOp::Ge => ">=",
        BinOp::And => "&&",
        BinOp::Or => "||",
        BinOp::BitOr => "|",
        BinOp::BitAnd => "&",
        BinOp::Shl => "<<",
        BinOp::Shr => ">>",
    }
}

/// The text in a message slot.
pub open spec fn slot_text(w: Option<String>) -> Option<Seq<char>> {
    match w {
        Some(s) => Some(s@),
        None => None,
    }
}

/// What a slot holds after a message arrived: the first one stays.
pub open spec fn first_of(a: Option<Seq<char>>, b: Option<Seq<char>>) -> Option<Seq<char>> {
    if a is Some {
        a
    } else {
        b
    }
}

/// Puts a message in a slot, unless one is there.
pub fn set_warn(warn: &mut Option<String>, msg: String)
    ensures
        slot_text(*final(warn)) == first_of(slot_text(*old(warn)), Some(msg@)),
{
    if warn.is_none() {
        *warn = Some(msg);
    }
}

/// The message for an operator on types it has no meaning for.
pub open spec fn undefined_text(a: Seq<char>, op: Seq<char>, b: Seq<char>) -> Seq<char> {
    "undefined operation ("@ + a + " "@ + op + " "@ + b + ")"@
}

fn undefined_message(a: &str, op: &str, b: &str) -> (r: String)
    ensures
        r@ == undefined_text(a@, op@, b@),
{
    let head: String = cat5("undefined operation (", a, " ", op, " ");
    cat3(head.as_str(), b, ")")
}

fn undef_op(op: BinOp, a: &Value, b: &Value, warn: &mut Option<String>) -> (r: Value)
    ensures
        r@ == Val::Undef,
        slot_text(*final(warn)) == first_of(
            slot_text(*old(warn)),
            Some(undefined_text(type_word(a@), symbol(op), type_word(b@))),
        ),
{
    set_warn(warn, undefined_message(word(a), op_symbol(op), word(b)));
    Value::Undef
}

pub open spec fn min_len(a: nat, b: nat) -> nat {
    if a < b {
        a
    } else {
        b
    }
}

/// Two vectors of numbers combined element by element, up to the shorter one.
pub open spec fn zipped(
    op: FloatOp,
    x: Seq<u64>,
    y: Seq<u64>,
    f: spec_fn(FloatOp, u64, u64) -> u64,
) -> Seq<u64> {
    Seq::new(min_len(x.len(), y.len()), |i: int| f(op, x[i], y[i]))
}

fn zip_trunc<F: Fn(FloatOp, u64, u64) -> u64>(
    op: FloatOp,
    x: &Vec<u64>,
    y: &Vec<u64>,
    fpu: &F,
) -> (r: Vec<u64>)
    requires
        unit_ok(*fpu),
    ensures
        r@ == zipped(op, x@, y@, unit(*fpu)),
{
    let mut out: Vec<u64> = Vec::new();
    let mut i: usize = 0;
    while i < x.len() && i < y.len()
        invariant
            unit_ok(*fpu),
            i <= x@.len(),
            i <= y@.len(),
            out@.len() == i,
            forall|k: int| 0 <= k < i ==> #[trigger] out@[k] == unit(*fpu)(op, x@[k], y@[k]),
        decreases x@.len() - i,
    {
        out.push(ask(fpu, op, x[i], y[i]));
        i += 1;
    }
    assert(out@ =~= zipped(op, x@, y@, unit(*fpu)));
    out
}

/// The sum or difference of two values: numbers, or vectors element by element at any depth, up
/// to the shorter one; `undef` for every other pair. (An element is less deep than its vector.)
pub open spec fn sum_of(op: FloatOp, a: Val, b: Val, f: spec_fn(FloatOp, u64, u64) -> u64) -> Val
    decreases depth(a),
{
    match (a, b) {
        (Val::Num(x), Val::Num(y)) => Val::Num(f(op, x, y)),
        (Val::NumList(x), Val::NumList(y)) => Val::NumList(zipped(op, x, y, f)),
        _ => match (elements(a), elements(b)) {
            (Some(x), Some(y)) => Val::List(
                Seq::new(
                    min_len(x.len(), y.len()),
                    |i: int|
                        if depth(x[i]) < depth(a) {
                            sum_of(op, x[i], y[i], f)
                        } else {
                            Val::Undef
                        },
                ),
            ),
            _ => Val::Undef,
        },
    }
}

fn sum_values<F: Fn(FloatOp, u64, u64) -> u64>(op: FloatOp, a: &Value, b: &Value, fpu: &F) -> (r:
    Value)
    requires
        unit_ok(*fpu),
    ensures
        r@ == sum_of(op, a@, b@, unit(*fpu)),
    decreases depth(a@),
{
    match (a, b) {
        (Value::Num(x), Value::Num(y)) => Value::Num(ask(fpu, op, *x, *y)),
        (Value::NumList(x), Value::NumList(y)) => Value::num_list(zip_trunc(op, x, y, fpu)),
        _ => match (list_len(a), list_len(b)) {
            (Some(n), Some(m)) => {
                let ghost x = elements(a@)->Some_0;
                let ghost y = elements(b@)->Some_0;
                let mut out: Vec<Value> = Vec::new();
                let mut i: usize = 0;
                while i < n && i < m
                    invariant
                        unit_ok(*fpu),
                        elements(a@) == Some(x),
                        elements(b@) == Some(y),
                        n == x.len(),
                        m == y.len(),
                        i <= n,
                        i <= m,
                        out@.len() == i,
                        forall|k: int|
                            0 <= k < i ==> depth(x[k]) < depth(a@) && (#[trigger] out@[k])@
                                == sum_of(op, x[k], y[k], unit(*fpu)),
                    decreases n - i,
                {
                    proof {
                        lemma_depth_element(a@, i as int);
                    }
                    out.push(sum_values(op, &list_get(a, i), &list_get(b, i), fpu));
                    i += 1;
                }
                let r = Value::list(out);
                assert(r@->List_0 =~= sum_of(op, a@, b@, unit(*fpu))->List_0);
                r
            },
            _ => Value::Undef,
        },
    }
}

/// A value times a number: element by element at any depth.
pub open spec fn scaled(s: u64, v: Val, f: spec_fn(FloatOp, u64, u64) -> u64) -> Val
    decreases v,
{
    match v {
        Val::Num(x) => Val::Num(f(FloatOp::Mul, s, x)),
        Val::NumList(xs) => Val::NumList(Seq::new(xs.len(), |i: int| f(FloatOp::Mul, xs[i], s))),
        Val::List(xs) => Val::List(
            Seq::new(
                xs.len(),
                |i: int|
                    if 0 <= i < xs.len() {
                        scaled(s, xs[i], f)
                    } else {
                        Val::Undef
                    },
            ),
        ),
        _ => Val::Undef,
    }
}

/// A value over a number: element by element at any depth.
pub open spec fn over_scalar(v: Val, s: u64, f: spec_fn(FloatOp, u64, u64) -> u64) -> Val
    decreases v,
{
    match v {
        Val::Num(x) => Val::Num(f(FloatOp::Div, x, s)),
        Val::NumList(xs) => Val::NumList(Seq::new(xs.len(), |i: int| f(FloatOp::Div, xs[i], s))),
        Val::List(xs) => Val::List(
            Seq::new(
                xs.len(),
                |i: int|
                    if 0 <= i < xs.len() {
                        over_scalar(xs[i], s, f)
                    } else {
                        Val::Undef
                    },
            ),
        ),
        _ => Val::Undef,
    }
}

/// A number over a value: element by element at any depth.
pub open spec fn under_scalar(s: u64, v: Val, f: spec_fn(FloatOp, u64, u64) -> u64) -> Val
    decreases v,
{
    match v {
        Val::Num(x) => Val::Num(f(FloatOp::Div, s, x)),
        Val::NumList(xs) => Val::NumList(Seq::new(xs.len(), |i: int| f(FloatOp::Div, s, xs[i]))),
        Val::List(xs) => Val::List(
            Seq::new(
                xs.len(),
                |i: int|
                    if 0 <= i < xs.len() {
                        under_scalar(s, xs[i], f)
                    } else {
                        Val::Undef
                    },
            ),
        ),
        _ => Val::Undef,
    }
}

/// The three ways a number meets every element of a value.
#[derive(Debug, Clone, Copy, PartialEq, Eq, Structural)]
enum Broadcast {
    Times,
    Over,
    Under,
}

spec fn broadcast_of(how: Broadcast, s: u64, v: Val, f: spec_fn(FloatOp, u64, u64) -> u64) -> Val {
    match how {
        Broadcast::Times => scaled(s, v, f),
        Broadcast::Over => over_scalar(v, s, f),
        Broadcast::Under => under_scalar(s, v, f),
    }
}

fn map_nums<F: Fn(FloatOp, u64, u64) -> u64>(how: Broadcast, s: u64, xs: &Vec<u64>, fpu: &F) -> (r:
    Vec<u64>)
    requires
        unit_ok(*fpu),
    ensures
        r@ == Seq::new(
            xs@.len(),
            |i: int|
                match how {
                    Broadcast::Times => unit(*fpu)(FloatOp::Mul, xs@[i], s),
                    Broadcast::Over => unit(*fpu)(FloatOp::Div, xs@[i], s),
                    Broadcast::Under => unit(*fpu)(FloatOp::Div, s, xs@[i]),
                },
        ),
{
    let mut out: Vec<u64> = Vec::new();
    let mut i: usize = 0;
    while i < xs.len()
        invariant
            unit_ok(*fpu),
            i <= xs@.len(),
            out@.len() == i,
            forall|k: int|
                0 <= k < i ==> #[trigger] out@[k] == match how {
                    Broadcast::Times => unit(*fpu)(FloatOp::Mul, xs@[k], s),
                    Broadcast::Over => unit(*fpu)(FloatOp::Div, xs@[k], s),
                    Broadcast::Under => unit(*fpu)(FloatOp::Div, s, xs@[k]),
                },
        decreases xs@.len() - i,
    {
        let e: u64 = match how {
            Broadcast::Times => ask(fpu, FloatOp::Mul, xs[i], s),
            Broadcast::Over => ask(fpu, FloatOp::Div, xs[i], s),
            Broadcast::Under => ask(fpu, FloatOp::Div, s, xs[i]),
        };
        out.push(e);
        i += 1;
    }
    out
}

fn broadcast_value<F: Fn(FloatOp, u64, u64) -> u64>(how: Broadcast, s: u64, v: &Value, fpu: &F) -> (r:
    Value)
    requires
        unit_ok(*fpu),
    ensures
        r@ == broadcast_of(how, s, v@, unit(*fpu)),
    decreases depth(v@),
{
    match v {
        Value::Num(x) => Value::Num(
            match how {
                Broadcast::Times => ask(fpu, FloatOp::Mul, s, *x),
                Broadcast::Over => ask(fpu, FloatOp::Div, *x, s),
                Broadcast::Under => ask(fpu, FloatOp::Div, s, *x),
            },
        ),
        Value::NumList(xs) => {
            let r = Value::num_list(map_nums(how, s, xs, fpu));
            assert(r@->NumList_0 =~= broadcast_of(how, s, v@, unit(*fpu))->NumList_0);
            r
        },
        Value::List(xs) => {
            proof {
                lemma_list_view(*xs);
            }
            let ghost vs = vals(xs.0@);
            let mut out: Vec<Value> = Vec::new();
            let mut i: usize = 0;
            while i < xs.0.len()
                invariant
                    unit_ok(*fpu),
                    i <= xs.0@.len(),
                    v@ == Val::List(vs),
                    vs == vals(xs.0@),
                    out@.len() == i,
                    forall|k: int|
                        0 <= k < i ==> (#[trigger] out@[k])@ == broadcast_of(
                            how,
                            s,
                            vs[k],
                            unit(*fpu),
                        ),
                decreases xs.0@.len() - i,
            {
                proof {
                    lemma_depth_element(v@, i as int);
                }
                out.push(broadcast_value(how, s, &xs.0[i], fpu));
                i += 1;
            }
            let r = Value::list(out);
            assert(r@->List_0 =~= broadcast_of(how, s, v@, unit(*fpu))->List_0);
            r
        },
        _ => Value::Undef,
    }
}

/// The sum of the products in one of the four lanes of a dot product: every fourth product.
pub open spec fn lane_sum(
    x: Seq<u64>,
    y: Seq<u64>,
    lane: int,
    n: nat,
    f: spec_fn(FloatOp, u64, u64) -> u64,
) -> u64
    decreases n,
{
    if n == 0 {
        0
    } else if (n - 1) % 4 == lane {
        f(
            FloatOp::Add,
            lane_sum(x, y, lane, (n - 1) as nat, f),
            f(FloatOp::Mul, x[n - 1], y[n - 1]),
        )
    } else {
        lane_sum(x, y, lane, (n - 1) as nat, f)
    }
}

/// The dot product: four lanes, summed two and two.
pub open spec fn dot_of(x: Seq<u64>, y: Seq<u64>, f: spec_fn(FloatOp, u64, u64) -> u64) -> u64 {
    f(
        FloatOp::Add,
        f(FloatOp::Add, lane_sum(x, y, 0, x.len(), f), lane_sum(x, y, 1, x.len(), f)),
        f(FloatOp::Add, lane_sum(x, y, 2, x.len(), f), lane_sum(x, y, 3, x.len(), f)),
    )
}

fn dot<F: Fn(FloatOp, u64, u64) -> u64>(x: &Vec<u64>, y: &Vec<u64>, fpu: &F) -> (r: u64)
    requires
        unit_ok(*fpu),
        x@.len() == y@.len(),
    ensures
        r == dot_of(x@, y@, unit(*fpu)),
{
    let mut l0: u64 = 0;
    let mut l1: u64 = 0;
    let mut l2: u64 = 0;
    let mut l3: u64 = 0;
    let mut k: usize = 0;
    while k < x.len()
        invariant
            unit_ok(*fpu),
            x@.len() == y@.len(),
            k <= x@.len(),
            l0 == lane_sum(x@, y@, 0, k as nat, unit(*fpu)),
            l1 == lane_sum(x@, y@, 1, k as nat, unit(*fpu)),
            l2 == lane_sum(x@, y@, 2, k as nat, unit(*fpu)),
            l3 == lane_sum(x@, y@, 3, k as nat, unit(*fpu)),
        decreases x@.len() - k,
    {
        let p: u64 = ask(fpu, FloatOp::Mul, x[k], y[k]);
        let lane: usize = k % 4;
        if lane == 0 {
            l0 = ask(fpu, FloatOp::Add, l0, p);
        } else if lane == 1 {
            l1 = ask(fpu, FloatOp::Add, l1, p);
        } else if lane == 2 {
            l2 = ask(fpu, FloatOp::Add, l2, p);
        } else {
            l3 = ask(fpu, FloatOp::Add, l3, p);
        }
        k += 1;
    }
    let a: u64 = ask(fpu, FloatOp::Add, l0, l1);
    let b: u64 = ask(fpu, FloatOp::Add, l2, l3);
    ask(fpu, FloatOp::Add, a, b)
}


/// Whether a value reads as a row of a matrix.
pub open spec fn is_row_of(v: Val) -> bool {
    v is NumList || v is List
}

fn is_row(v: &Value) -> (r: bool)
    ensures
        r == is_row_of(v@),
{
    match v {
        Value::NumList(_) => true,
        Value::List(_) => true,
        _ => false,
    }
}

/// The message for an element that is no number.
pub open spec fn numbers_text(i: int) -> Seq<char> {
    "Vector must contain only numbers. Problem at index "@ + decimal(i as nat)
}

/// The message for an element that is no number.
pub fn vector_numbers_msg(i: usize) -> (r: String)
    ensures
        r@ == numbers_text(i as int),
{
    cat("Vector must contain only numbers. Problem at index ", dec(i as u64).as_str())
}

/// The place of the first element that is no number, from `i` on.
pub open spec fn first_non_num_from(m: Seq<Val>, i: int) -> Option<int>
    decreases m.len() - i,
{
    if i >= m.len() {
        None
    } else if !(m[i] is Num) {
        Some(i)
    } else {
        first_non_num_from(m, i + 1)
    }
}

fn first_non_num(m: &Vec<Value>) -> (r: Option<usize>)
    ensures
        match r {
            Some(i) => first_non_num_from(vals(m@), 0) == Some(i as int) && i < m@.len(),
            None => first_non_num_from(vals(m@), 0) is None,
        },
{
    let mut i: usize = 0;
    while i < m.len()
        invariant
            i <= m@.len(),
            first_non_num_from(vals(m@), 0) == first_non_num_from(vals(m@), i as int),
        decreases m@.len() - i,
    {
        match &m[i] {
            Value::Num(_) => {},
            _ => {
                return Some(i);
            },
        }
        i += 1;
    }
    None
}

/// The message for a matrix with a row that is not all numbers, from row `i` on.
pub open spec fn bad_row_text(m: Seq<Val>, i: int) -> Seq<char>
    decreases m.len() - i,
{
    if i >= m.len() {
        numbers_text(0)
    } else {
        match m[i] {
            Val::NumList(_) => bad_row_text(m, i + 1),
            Val::List(items) => match first_non_num_from(items, 0) {
                Some(j) => numbers_text(j),
                None => bad_row_text(m, i + 1),
            },
            _ => numbers_text(i),
        }
    }
}

fn bad_row_msg(m: &Vec<Value>) -> (r: String)
    ensures
        r@ == bad_row_text(vals(m@), 0),
{
    let mut i: usize = 0;
    while i < m.len()
        invariant
            i <= m@.len(),
            bad_row_text(vals(m@), 0) == bad_row_text(vals(m@), i as int),
        decreases m@.len() - i,
    {
        assert(vals(m@)[i as int] == m@[i as int]@);
        match &m[i] {
            Value::NumList(_) => {},
            Value::List(items) => {
                proof {
                    lemma_list_view(*items);
                }
                match first_non_num(&items.0) {
                    Some(j) => {
                        return vector_numbers_msg(j);
                    },
                    None => {},
                }
            },
            _ => {
                return vector_numbers_msg(i);
            },
        }
        i += 1;
    }
    vector_numbers_msg(0)
}

/// A message that two counts differ.
pub open spec fn counts_text(head: Seq<char>, n: nat, m: nat) -> Seq<char> {
    head + " ("@ + decimal(n) + " != "@ + decimal(m) + ")"@
}

fn counts_msg(head: &str, n: usize, m: usize) -> (r: String)
    ensures
        r@ == counts_text(head@, n as nat, m as nat),
{
    let start: String = cat5(head, " (", dec(n as u64).as_str(), " != ", dec(m as u64).as_str());
    cat(start.as_str(), ")")
}

pub open spec fn lengths_text(n: nat, m: nat) -> Seq<char> {
    counts_text("vector*vector requires matching lengths"@, n, m)
}

/// The first row from `i` on that is not a row of `n` numbers.
pub open spec fn first_bad_row(m: Seq<Val>, n: nat, i: int) -> Option<int>
    decreases m.len() - i,
{
    if i >= m.len() {
        None
    } else if m[i] matches Val::NumList(r) && r.len() == n {
        first_bad_row(m, n, i + 1)
    } else {
        Some(i)
    }
}

/// A matrix times a vector, and the message where it has no value.
pub open spec fn mat_vec(m: Seq<Val>, v: Seq<u64>, f: spec_fn(FloatOp, u64, u64) -> u64) -> (
    Val,
    Option<Seq<char>>,
) {
    if !is_row_of(m[0]) {
        if m.len() != v.len() {
            (Val::Undef, Some(lengths_text(m.len(), v.len())))
        } else {
            match first_non_num_from(m, 0) {
                Some(i) => (
                    Val::Undef,
                    Some("undefined operation ("@ + type_word(m[i]) + " * number)"@),
                ),
                None => (Val::Undef, None),
            }
        }
    } else {
        match first_bad_row(m, v.len(), 0) {
            None => (
                Val::NumList(Seq::new(m.len(), |i: int| dot_of(m[i]->NumList_0, v, f))),
                None,
            ),
            Some(i) => match m[i] {
                Val::NumList(r) => (
                    Val::Undef,
                    Some(
                        counts_text(
                            "matrix*vector requires matrix column count to match vector length"@,
                            r.len(),
                            v.len(),
                        ),
                    ),
                ),
                _ => (Val::Undef, Some(bad_row_text(m, 0))),
            },
        }
    }
}

fn mat_times_vec<F: Fn(FloatOp, u64, u64) -> u64>(
    m: &Vec<Value>,
    v: &Vec<u64>,
    warn: &mut Option<String>,
    fpu: &F,
) -> (r: Value)
    requires
        unit_ok(*fpu),
        m@.len() > 0,
    ensures
        r@ == mat_vec(vals(m@), v@, unit(*fpu)).0,
        slot_text(*final(warn)) == first_of(
            slot_text(*old(warn)),
            mat_vec(vals(m@), v@, unit(*fpu)).1,
        ),
{
    let ghost ms = vals(m@);
    if !is_row(&m[0]) {
        if m.len() != v.len() {
            set_warn(
                warn,
                counts_msg("vector*vector requires matching lengths", m.len(), v.len()),
            );
        } else {
            match first_non_num(m) {
                Some(i) => {
                    set_warn(warn, cat3("undefined operation (", word(&m[i]), " * number)"));
                },
                None => {},
            }
        }
        return Value::Undef;
    }
    let mut out: Vec<u64> = Vec::new();
    let mut i: usize = 0;
    while i < m.len()
        invariant
            unit_ok(*fpu),
            ms == vals(m@),
            is_row_of(ms[0]),
            m@.len() > 0,
            *warn == *old(warn),
            i <= m@.len(),
            out@.len() == i,
            first_bad_row(ms, v@.len(), 0) == first_bad_row(ms, v@.len(), i as int),
            forall|k: int|
                0 <= k < i ==> (#[trigger] out@[k]) == dot_of(ms[k]->NumList_0, v@, unit(*fpu)),
        decreases m@.len() - i,
    {
        assert(ms[i as int] == m@[i as int]@);
        match &m[i] {
            Value::NumList(row) => {
                if row.len() == v.len() {
                    out.push(dot(row, v, fpu));
                } else {
                    set_warn(
                        warn,
                        counts_msg(
                            "matrix*vector requires matrix column count to match vector length",
                            row.len(),
                            v.len(),
                        ),
                    );
                    return Value::Undef;
                }
            },
            _ => {
                set_warn(warn, bad_row_msg(m));
                return Value::Undef;
            },
        }
        i += 1;
    }
    assert(out@ =~= mat_vec(ms, v@, unit(*fpu)).0->NumList_0);
    Value::num_list(out)
}

/// The first row from `i` on that is not a row of numbers.
pub open spec fn first_unnumbered(m: Seq<Val>, i: int) -> Option<int>
    decreases m.len() - i,
{
    if i >= m.len() {
        None
    } else if m[i] is NumList {
        first_unnumbered(m, i + 1)
    } else {
        Some(i)
    }
}

/// A column of a matrix of numbers.
pub open spec fn column(m: Seq<Val>, j: int) -> Seq<u64> {
    Seq::new(m.len(), |i: int| m[i]->NumList_0[j])
}

/// A vector times a matrix, and the message where it has no value.
pub open spec fn vec_mat(v: Seq<u64>, m: Seq<Val>, f: spec_fn(FloatOp, u64, u64) -> u64) -> (
    Val,
    Option<Seq<char>>,
) {
    if !is_row_of(m[0]) {
        if v.len() != m.len() {
            (Val::Undef, Some(lengths_text(v.len(), m.len())))
        } else {
            match first_non_num_from(m, 0) {
                Some(i) => (
                    Val::Undef,
                    Some("undefined operation (number * "@ + type_word(m[i]) + ")"@),
                ),
                None => (Val::Undef, None),
            }
        }
    } else if v.len() != m.len() {
        (
            Val::Undef,
            Some(
                counts_text(
                    "vector*matrix requires vector length to match matrix row count"@,
                    v.len(),
                    m.len(),
                ),
            ),
        )
    } else if first_unnumbered(m, 0) is Some {
        (Val::Undef, Some(bad_row_text(m, 0)))
    } else if first_bad_row(m, m[0]->NumList_0.len(), 0) is Some {
        (Val::Undef, None)
    } else {
        (
            Val::NumList(
                Seq::new(m[0]->NumList_0.len(), |j: int| dot_of(v, column(m, j), f)),
            ),
            None,
        )
    }
}

proof fn lemma_first_unnumbered(m: Seq<Val>, i: int)
    requires
        0 <= i,
        first_unnumbered(m, i) is None,
    ensures
        forall|k: int| i <= k < m.len() ==> (#[trigger] m[k]) is NumList,
    decreases m.len() - i,
{
    if i < m.len() {
        lemma_first_unnumbered(m, i + 1);
    }
}

proof fn lemma_first_bad_row(m: Seq<Val>, n: nat, i: int)
    requires
        0 <= i,
        first_bad_row(m, n, i) is None,
    ensures
        forall|k: int|
            i <= k < m.len() ==> ((#[trigger] m[k]) matches Val::NumList(r) && r.len() == n),
    decreases m.len() - i,
{
    if i < m.len() {
        lemma_first_bad_row(m, n, i + 1);
    }
}

fn vec_times_mat<F: Fn(FloatOp, u64, u64) -> u64>(
    v: &Vec<u64>,
    m: &Vec<Value>,
    warn: &mut Option<String>,
    fpu: &F,
) -> (r: Value)
    requires
        unit_ok(*fpu),
        m@.len() > 0,
    ensures
        r@ == vec_mat(v@, vals(m@), unit(*fpu)).0,
        slot_text(*final(warn)) == first_of(
            slot_text(*old(warn)),
            vec_mat(v@, vals(m@), unit(*fpu)).1,
        ),
{
    let ghost ms = vals(m@);
    if !is_row(&m[0]) {
        if v.len() != m.len() {
            set_warn(
                warn,
                counts_msg("vector*vector requires matching lengths", v.len(), m.len()),
            );
        } else {
            match first_non_num(m) {
                Some(i) => {
                    set_warn(warn, cat3("undefined operation (number * ", word(&m[i]), ")"));
                },
                None => {},
            }
        }
        return Value::Undef;
    }
    if v.len() != m.len() {
        set_warn(
            warn,
            counts_msg(
                "vector*matrix requires vector length to match matrix row count",
                v.len(),
                m.len(),
            ),
        );
        return Value::Undef;
    }
    let mut i: usize = 0;
    while i < m.len()
        invariant
            ms == vals(m@),
            i <= m@.len(),
            v@.len() == m@.len(),
            m@.len() > 0,
            is_row_of(ms[0]),
            *warn == *old(warn),
            first_unnumbered(ms, 0) == first_unnumbered(ms, i as int),
        decreases m@.len() - i,
    {
        assert(ms[i as int] == m@[i as int]@);
        match &m[i] {
            Value::NumList(_) => {},
            _ => {
                set_warn(warn, bad_row_msg(m));
                return Value::Undef;
            },
        }
        i += 1;
    }
    let cols: usize = match &m[0] {
        Value::NumList(r) => r.len(),
        _ => 0,
    };
    proof {
        lemma_first_unnumbered(ms, 0);
        assert(ms[0] == m@[0]@);
    }
    let mut k: usize = 0;
    while k < m.len()
        invariant
            ms == vals(m@),
            k <= m@.len(),
            v@.len() == m@.len(),
            m@.len() > 0,
            is_row_of(ms[0]),
            ms[0] is NumList,
            cols == ms[0]->NumList_0.len(),
            first_unnumbered(ms, 0) is None,
            *warn == *old(warn),
            first_bad_row(ms, cols as nat, 0) == first_bad_row(ms, cols as nat, k as int),
        decreases m@.len() - k,
    {
        assert(ms[k as int] == m@[k as int]@);
        match &m[k] {
            Value::NumList(r) => {
                if r.len() != cols {
                    return Value::Undef;
                }
            },
            _ => {
                return Value::Undef;
            },
        }
        k += 1;
    }
    proof {
        lemma_first_bad_row(ms, cols as nat, 0);
    }
    let mut out: Vec<u64> = Vec::new();
    let mut j: usize = 0;
    while j < cols
        invariant
            unit_ok(*fpu),
            ms == vals(m@),
            v@.len() == m@.len(),
            j <= cols,
            out@.len() == j,
            forall|k: int|
                0 <= k < ms.len() ==> ((#[trigger] ms[k]) matches Val::NumList(r) && r.len() == cols),
            forall|k: int|
                0 <= k < j ==> (#[trigger] out@[k]) == dot_of(v@, column(ms, k), unit(*fpu)),
        decreases cols - j,
    {
        let mut col: Vec<u64> = Vec::new();
        let mut i: usize = 0;
        while i < m.len()
            invariant
                ms == vals(m@),
                i <= m@.len(),
                j < cols,
                col@.len() == i,
                forall|k: int|
                    0 <= k < ms.len() ==> ((#[trigger] ms[k]) matches Val::NumList(r) && r.len()
                        == cols),
                forall|k: int| 0 <= k < i ==> (#[trigger] col@[k]) == ms[k]->NumList_0[j as int],
            decreases m@.len() - i,
        {
            assert(ms[i as int] == m@[i as int]@);
            match &m[i] {
                Value::NumList(r) => {
                    col.push(r[j]);
                },
                _ => {
                    assert(ms[i as int] is NumList);
                    col.push(0);
                },
            }
            i += 1;
        }
        assert(col@ =~= column(ms, j as int));
        out.push(dot(v, &col, fpu));
        j += 1;
    }
    assert(out@ =~= vec_mat(v@, ms, unit(*fpu)).0->NumList_0);
    Value::num_list(out)
}

/// The product of a matrix's rows from `i` on with a matrix: each row as a vector times it.
pub open spec fn mat_mat_from(
    a: Seq<Val>,
    b: Seq<Val>,
    i: int,
    done: Seq<Val>,
    f: spec_fn(FloatOp, u64, u64) -> u64,
) -> (Val, Option<Seq<char>>)
    decreases a.len() - i,
{
    if i >= a.len() {
        (Val::List(done), None)
    } else {
        match a[i] {
            Val::NumList(r) => if r.len() != b.len() {
                (
                    Val::Undef,
                    Some(
                        counts_text(
                            "matrix*matrix requires left operand column count to match right operand row count"@,
                            r.len(),
                            b.len(),
                        ),
                    ),
                )
            } else {
                let (v, w) = vec_mat(r, b, f);
                if v is Undef {
                    (Val::Undef, w)
                } else {
                    mat_mat_from(a, b, i + 1, done.push(v), f)
                }
            },
            _ => (Val::Undef, Some(bad_row_text(a, 0))),
        }
    }
}

/// A matrix times a matrix, and the message where it has no value.
pub open spec fn mat_mat(a: Seq<Val>, b: Seq<Val>, f: spec_fn(FloatOp, u64, u64) -> u64) -> (
    Val,
    Option<Seq<char>>,
) {
    if !is_row_of(a[0]) {
        match first_non_num_from(a, 0) {
            Some(i) => (Val::Undef, Some(numbers_text(i))),
            None => (Val::Undef, None),
        }
    } else {
        mat_mat_from(a, b, 0, Seq::empty(), f)
    }
}

fn mat_times_mat<F: Fn(FloatOp, u64, u64) -> u64>(
    a: &Vec<Value>,
    b: &Vec<Value>,
    warn: &mut Option<String>,
    fpu: &F,
) -> (r: Value)
    requires
        unit_ok(*fpu),
        a@.len() > 0,
        b@.len() > 0,
    ensures
        r@ == mat_mat(vals(a@), vals(b@), unit(*fpu)).0,
        slot_text(*final(warn)) == first_of(
            slot_text(*old(warn)),
            mat_mat(vals(a@), vals(b@), unit(*fpu)).1,
        ),
{
    let ghost va = vals(a@);
    let ghost vb = vals(b@);
    if !is_row(&a[0]) {
        match first_non_num(a) {
            Some(i) => {
                set_warn(warn, vector_numbers_msg(i));
            },
            None => {},
        }
        return Value::Undef;
    }
    let mut out: Vec<Value> = Vec::new();
    let mut i: usize = 0;
    assert(vals(out@) =~= Seq::<Val>::empty());
    while i < a.len()
        invariant
            unit_ok(*fpu),
            va == vals(a@),
            vb == vals(b@),
            b@.len() > 0,
            a@.len() > 0,
            is_row_of(va[0]),
            *warn == *old(warn),
            i <= a@.len(),
            mat_mat(va, vb, unit(*fpu)) == mat_mat_from(
                va,
                vb,
                i as int,
                vals(out@),
                unit(*fpu),
            ),
        decreases a@.len() - i,
    {
        assert(va[i as int] == a@[i as int]@);
        match &a[i] {
            Value::NumList(r) => {
                if r.len() != b.len() {
                    set_warn(
                        warn,
                        counts_msg(
                            "matrix*matrix requires left operand column count to match right operand row count",
                            r.len(),
                            b.len(),
                        ),
                    );
                    return Value::Undef;
                }
                let mut inner: Option<String> = None;
                let row: Value = vec_times_mat(r, b, &mut inner, fpu);
                match &row {
                    Value::Undef => {
                        match inner {
                            Some(w) => {
                                set_warn(warn, w);
                            },
                            None => {},
                        }
                        return Value::Undef;
                    },
                    _ => {},
                }
                proof {
                    assert(vals(out@.push(row)) =~= vals(out@).push(row@));
                }
                out.push(row);
            },
            _ => {
                set_warn(warn, bad_row_msg(a));
                return Value::Undef;
            },
        }
        i += 1;
    }
    Value::list(out)
}

/// The product of two vectors or matrices, and the message where it has no value.
pub open spec fn product_of(a: Val, b: Val, f: spec_fn(FloatOp, u64, u64) -> u64) -> (
    Val,
    Option<Seq<char>>,
) {
    if elements(a)->Some_0.len() == 0 || elements(b)->Some_0.len() == 0 {
        (Val::Undef, Some("Multiplication is undefined on empty vectors"@))
    } else {
        match (a, b) {
            (Val::NumList(x), Val::NumList(y)) => if x.len() == y.len() {
                (Val::Num(dot_of(x, y, f)), None)
            } else {
                (Val::Undef, Some(lengths_text(x.len(), y.len())))
            },
            (Val::NumList(v), Val::List(m)) => vec_mat(v, m, f),
            (Val::List(m), Val::NumList(v)) => mat_vec(m, v, f),
            (Val::List(x), Val::List(y)) => mat_mat(x, y, f),
            _ => (Val::Undef, None),
        }
    }
}

fn mul_vectors<F: Fn(FloatOp, u64, u64) -> u64>(
    a: &Value,
    b: &Value,
    warn: &mut Option<String>,
    fpu: &F,
) -> (r: Value)
    requires
        unit_ok(*fpu),
        elements(a@) is Some,
        elements(b@) is Some,
    ensures
        r@ == product_of(a@, b@, unit(*fpu)).0,
        slot_text(*final(warn)) == first_of(
            slot_text(*old(warn)),
            product_of(a@, b@, unit(*fpu)).1,
        ),
{
    let n: usize = match list_len(a) {
        Some(n) => n,
        None => 0,
    };
    let m: usize = match list_len(b) {
        Some(n) => n,
        None => 0,
    };
    if n == 0 || m == 0 {
        set_warn(warn, "Multiplication is undefined on empty vectors".to_owned());
        return Value::Undef;
    }
    match (a, b) {
        (Value::NumList(x), Value::NumList(y)) => {
            if x.len() == y.len() {
                Value::Num(dot(x, y, fpu))
            } else {
                set_warn(
                    warn,
                    counts_msg("vector*vector requires matching lengths", x.len(), y.len()),
                );
                Value::Undef
            }
        },
        (Value::NumList(v), Value::List(mat)) => {
            proof {
                lemma_list_view(*mat);
            }
            vec_times_mat(v, &mat.0, warn, fpu)
        },
        (Value::List(mat), Value::NumList(v)) => {
            proof {
                lemma_list_view(*mat);
            }
            mat_times_vec(&mat.0, v, warn, fpu)
        },
        (Value::List(x), Value::List(y)) => {
            proof {
                lemma_list_view(*x);
                lemma_list_view(*y);
            }
            mat_times_mat(&x.0, &y.0, warn, fpu)
        },
        _ => Value::Undef,
    }
}


/// The outcome of comparing two values: a place, an incomparable number, or a difference of type
/// at some depth. For that last one `frames` holds the indices that lead to it, innermost first.
pub enum Verdict {
    Placed(Rank),
    Nan,
    Mismatch { frames: Seq<int>, left: Seq<char>, right: Seq<char> },
}

/// The outcome of a comparison, at run time.
#[derive(Debug)]
enum Outcome {
    Placed(Rank),
    Nan,
    Mismatch { frames: Vec<usize>, left: &'static str, right: &'static str },
}

impl View for Outcome {
    type V = Verdict;

    closed spec fn view(&self) -> Verdict {
        match *self {
            Outcome::Placed(r) => Verdict::Placed(r),
            Outcome::Nan => Verdict::Nan,
            Outcome::Mismatch { frames, left, right } => Verdict::Mismatch {
                frames: Seq::new(frames@.len(), |i: int| frames@[i] as int),
                left: left@,
                right: right@,
            },
        }
    }
}

pub open spec fn placed(r: Option<Rank>) -> Verdict {
    match r {
        Some(k) => Verdict::Placed(k),
        None => Verdict::Nan,
    }
}

/// Compares two values: numbers by size, texts by code points, `false` before `true`, ranges by
/// what they iterate, vectors element by element with the shorter first.
pub open spec fn compare(a: Val, b: Val, f: spec_fn(FloatOp, u64, u64) -> u64) -> Verdict
    decreases depth(a) + 1, 0nat,
{
    match (a, b) {
        (Val::Num(x), Val::Num(y)) => placed(num_rank(x, y)),
        (Val::Str(x), Val::Str(y)) => Verdict::Placed(text_rank_of(x, y)),
        (Val::Bool(x), Val::Bool(y)) => Verdict::Placed(
            if x == y {
                Rank::Equal
            } else if y {
                Rank::Less
            } else {
                Rank::Greater
            },
        ),
        (
            Val::Range { start, step, end },
            Val::Range { start: start2, step: step2, end: end2 },
        ) => placed(range_rank_of((start, step, end), (start2, step2, end2), f)),
        _ => match (elements(a), elements(b)) {
            (Some(x), Some(y)) => compare_from(depth(a), x, y, 0, f),
            _ => Verdict::Mismatch {
                frames: Seq::empty(),
                left: type_word(a),
                right: type_word(b),
            },
        },
    }
}

/// Compares the elements of two vectors from index `i` on; an incomparable pair counts as equal.
/// (`d` is the depth of the first vector: its elements are less deep.)
pub open spec fn compare_from(
    d: nat,
    x: Seq<Val>,
    y: Seq<Val>,
    i: nat,
    f: spec_fn(FloatOp, u64, u64) -> u64,
) -> Verdict
    decreases d, x.len() - i + 1,
{
    if i >= x.len() || i >= y.len() {
        Verdict::Placed(
            if x.len() < y.len() {
                Rank::Less
            } else if x.len() == y.len() {
                Rank::Equal
            } else {
                Rank::Greater
            },
        )
    } else if depth(x[i as int]) >= d {
        Verdict::Nan
    } else {
        match compare(x[i as int], y[i as int], f) {
            Verdict::Placed(Rank::Equal) => compare_from(d, x, y, i + 1, f),
            Verdict::Nan => compare_from(d, x, y, i + 1, f),
            Verdict::Placed(r) => Verdict::Placed(r),
            Verdict::Mismatch { frames, left, right } => Verdict::Mismatch {
                frames: frames.push(i as int),
                left,
                right,
            },
        }
    }
}

fn to_outcome(r: Option<Rank>) -> (o: Outcome)
    ensures
        o@ == placed(r),
{
    match r {
        Some(k) => Outcome::Placed(k),
        None => Outcome::Nan,
    }
}

fn compare_values<F: Fn(FloatOp, u64, u64) -> u64>(a: &Value, b: &Value, fpu: &F) -> (r: Outcome)
    requires
        unit_ok(*fpu),
    ensures
        r@ == compare(a@, b@, unit(*fpu)),
    decreases depth(a@),
{
    match (a, b) {
        (Value::Num(x), Value::Num(y)) => to_outcome(rank(*x, *y)),
        (Value::Str(x), Value::Str(y)) => Outcome::Placed(text_rank(x.as_str(), y.as_str())),
        (Value::Bool(x), Value::Bool(y)) => Outcome::Placed(
            if *x == *y {
                Rank::Equal
            } else if *y {
                Rank::Less
            } else {
                Rank::Greater
            },
        ),
        (
            Value::Range { start, step, end },
            Value::Range { start: start2, step: step2, end: end2 },
        ) => to_outcome(range_seq_rank((*start, *step, *end), (*start2, *step2, *end2), fpu)),
        _ => match (list_len(a), list_len(b)) {
            (Some(n), Some(m)) => {
                let ghost x = elements(a@)->Some_0;
                let ghost y = elements(b@)->Some_0;
                let mut i: usize = 0;
                while i < n && i < m
                    invariant
                        unit_ok(*fpu),
                        elements(a@) == Some(x),
                        elements(b@) == Some(y),
                        n == x.len(),
                        m == y.len(),
                        i <= n,
                        i <= m,
                        compare(a@, b@, unit(*fpu)) == compare_from(
                            depth(a@),
                            x,
                            y,
                            i as nat,
                            unit(*fpu),
                        ),
                    decreases n - i,
                {
                    proof {
                        lemma_depth_element(a@, i as int);
                    }
                    match compare_values(&list_get(a, i), &list_get(b, i), fpu) {
                        Outcome::Placed(Rank::Equal) => {},
                        Outcome::Nan => {},
                        Outcome::Placed(k) => {
                            return Outcome::Placed(k);
                        },
                        Outcome::Mismatch { mut frames, left, right } => {
                            let ghost inner = Outcome::Mismatch { frames, left, right }@;
                            frames.push(i);
                            let r = Outcome::Mismatch { frames, left, right };
                            assert(r@->frames =~= inner->frames.push(i as int));
                            return r;
                        },
                    }
                    i += 1;
                }
                Outcome::Placed(
                    if n < m {
                        Rank::Less
                    } else if n == m {
                        Rank::Equal
                    } else {
                        Rank::Greater
                    },
                )
            },
            _ => {
                let r = Outcome::Mismatch { frames: Vec::new(), left: word(a), right: word(b) };
                assert(r@->frames =~= Seq::<int>::empty());
                r
            },
        },
    }
}

/// Whether two values have types that are ordered among themselves.
pub open spec fn orderable(a: Val, b: Val) -> bool {
    ||| a is Num && b is Num
    ||| a is Str && b is Str
    ||| a is Bool && b is Bool
    ||| a is Range && b is Range
    ||| elements(a) is Some && elements(b) is Some
}

fn same_orderable_type(a: &Value, b: &Value) -> (r: bool)
    ensures
        r == orderable(a@, b@),
{
    match (a, b) {
        (Value::Num(_), Value::Num(_)) => true,
        (Value::Str(_), Value::Str(_)) => true,
        (Value::Bool(_), Value::Bool(_)) => true,
        (Value::Range { .. }, Value::Range { .. }) => true,
        _ => list_len(a).is_some() && list_len(b).is_some(),
    }
}

/// Whether an ordering operator holds at a place.
pub open spec fn wanted(op: BinOp, r: Rank) -> bool {
    match op {
        BinOp::Lt => r == Rank::Less,
        BinOp::Le => r != Rank::Greater,
        BinOp::Gt => r == Rank::Greater,
        _ => r != Rank::Less,
    }
}

/// The lines that lead to a difference of type inside vectors.
pub open spec fn frames_text(frames: Seq<int>) -> Seq<char>
    decreases frames.len(),
{
    if frames.len() == 0 {
        Seq::empty()
    } else {
        frames_text(frames.drop_last()) + "\n\tin vector comparison at index "@ + decimal(
            frames.last() as nat,
        )
    }
}

/// The value of an ordering comparison, and the message where it has none.
pub open spec fn ordered(op: BinOp, a: Val, b: Val, f: spec_fn(FloatOp, u64, u64) -> u64) -> (
    Val,
    Option<Seq<char>>,
) {
    if orderable(a, b) {
        match compare(a, b, f) {
            Verdict::Placed(r) => (Val::Bool(wanted(op, r)), None),
            Verdict::Nan => (Val::Bool(false), None),
            Verdict::Mismatch { frames, left, right } => {
                let (l, r) = if op == BinOp::Le || op == BinOp::Gt {
                    (right, left)
                } else {
                    (left, right)
                };
                (Val::Undef, Some(undefined_text(l, "<"@, r) + frames_text(frames)))
            },
        }
    } else if type_word(a) == type_word(b) {
        (
            Val::Undef,
            Some(
                "operation undefined ("@ + type_word(a) + " "@ + symbol(op) + " "@ + type_word(b)
                    + ")"@,
            ),
        )
    } else {
        (Val::Undef, Some(undefined_text(type_word(a), symbol(op), type_word(b))))
    }
}

fn order<F: Fn(FloatOp, u64, u64) -> u64>(
    op: BinOp,
    a: &Value,
    b: &Value,
    warn: &mut Option<String>,
    fpu: &F,
) -> (r: Value)
    requires
        unit_ok(*fpu),
        op == BinOp::Lt || op == BinOp::Le || op == BinOp::Gt || op == BinOp::Ge,
    ensures
        r@ == ordered(op, a@, b@, unit(*fpu)).0,
        slot_text(*final(warn)) == first_of(
            slot_text(*old(warn)),
            ordered(op, a@, b@, unit(*fpu)).1,
        ),
{
    if same_orderable_type(a, b) {
        match compare_values(a, b, fpu) {
            Outcome::Placed(k) => Value::Bool(
                match op {
                    BinOp::Lt => k == Rank::Less,
                    BinOp::Le => k != Rank::Greater,
                    BinOp::Gt => k == Rank::Greater,
                    _ => k != Rank::Less,
                },
            ),
            Outcome::Nan => Value::Bool(false),
            Outcome::Mismatch { frames, left, right } => {
                let ghost trail = Outcome::Mismatch { frames, left, right }@->frames;
                let swap: bool = op == BinOp::Le || op == BinOp::Gt;
                let mut msg: String = if swap {
                    undefined_message(right, "<", left)
                } else {
                    undefined_message(left, "<", right)
                };
                let ghost head = msg@;
                let mut i: usize = 0;
                while i < frames.len()
                    invariant
                        i <= frames@.len(),
                        trail == Seq::new(frames@.len(), |i: int| frames@[i] as int),
                        msg@ == head + frames_text(trail.take(i as int)),
                    decreases frames@.len() - i,
                {
                    msg.append("\n\tin vector comparison at index ");
                    msg.append(dec(frames[i] as u64).as_str());
                    proof {
                        let t = trail.take(i as int + 1);
                        assert(t.drop_last() =~= trail.take(i as int));
                        assert(t.last() == frames@[i as int] as int);
                    }
                    assert(msg@ =~= head + frames_text(trail.take(i as int + 1)));
                    i += 1;
                }
                assert(trail.take(trail.len() as int) =~= trail);
                set_warn(warn, msg);
                Value::Undef
            },
        }
    } else {
        let l: &'static str = word(a);
        let r: &'static str = word(b);
        if same(l, r) {
            let head: String = cat5("operation undefined (", l, " ", op_symbol(op), " ");
            set_warn(warn, cat3(head.as_str(), r, ")"));
        } else {
            set_warn(warn, undefined_message(l, op_symbol(op), r));
        }
        Value::Undef
    }
}

/// A function taken out of an object is bound to it; anything else stays as it is.
pub open spec fn bound_to(v: Val, ms: Seq<(Seq<char>, Val)>) -> Val {
    match v {
        Val::Function { closure_id, env, self_name, repr, group, .. } => Val::Function {
            closure_id,
            env,
            self_name,
            repr,
            group,
            bound_this: Some(ms),
        },
        other => other,
    }
}

fn bind_receiver(v: Value, receiver: &Rc<ObjectMap>) -> (r: Value)
    ensures
        r@ == bound_to(v@, members_of(**receiver)),
{
    match v {
        Value::Function { closure_id, env, self_name, repr, group, .. } => Value::Function {
            closure_id,
            env,
            self_name,
            repr,
            group,
            bound_this: Some(receiver.clone()),
        },
        other => other,
    }
}

/// The member of an object, bound to it; `undef` where there is none.
pub open spec fn member_of(ms: Seq<(Seq<char>, Val)>, name: Seq<char>) -> Val {
    match member_value(ms, name) {
        Some(v) => bound_to(v, ms),
        None => Val::Undef,
    }
}

fn object_member(o: &Rc<ObjectMap>, name: &str) -> (r: Value)
    ensures
        r@ == member_of(members_of(**o), name@),
{
    match o.get(name) {
        Some(v) => bind_receiver(v.clone(), o),
        None => Value::Undef,
    }
}

/// `base[index]`: an object by a text, everything else by the integer part of a non-negative
/// finite number; `undef` in every other case.
pub open spec fn indexed(base: Val, index: Val) -> Val {
    match (base, index) {
        (Val::Object(ms), Val::Str(k)) => member_of(ms, k),
        (Val::Object(_), _) => Val::Undef,
        (_, Val::Num(i)) => if num_lt(i, 0) || !is_finite(i) {
            Val::Undef
        } else {
            element_at(base, to_unsigned(i, u64::MAX as int))
        },
        _ => Val::Undef,
    }
}

/// The element of a text, a range or a vector at a place.
pub open spec fn element_at(base: Val, idx: int) -> Val {
    match base {
        Val::Str(s) => if idx < s.len() {
            Val::Str(seq![s[idx]])
        } else {
            Val::Undef
        },
        Val::Range { start, step, end } => if idx == 0 {
            Val::Num(start)
        } else if idx == 1 {
            Val::Num(step)
        } else if idx == 2 {
            Val::Num(end)
        } else {
            Val::Undef
        },
        _ => match elements(base) {
            Some(xs) => if idx < xs.len() {
                xs[idx]
            } else {
                Val::Undef
            },
            None => Val::Undef,
        },
    }
}

fn element<'a>(base: &Value, idx: u64) -> (r: Value)
    requires
        !(base@ is Object),
    ensures
        r@ == element_at(base@, idx as int),
{
    match base {
        Value::Str(s) => {
            let n: usize = s.as_str().unicode_len();
            if idx < n as u64 {
                let c: char = s.as_str().get_char(idx as usize);
                Value::string(crate::chars::char_text(c).as_str())
            } else {
                Value::Undef
            }
        },
        Value::Range { start, step, end } => {
            if idx == 0 {
                Value::Num(*start)
            } else if idx == 1 {
                Value::Num(*step)
            } else if idx == 2 {
                Value::Num(*end)
            } else {
                Value::Undef
            }
        },
        other => match list_len(other) {
            Some(n) => if idx < n as u64 {
                list_get(other, idx as usize)
            } else {
                Value::Undef
            },
            None => Value::Undef,
        },
    }
}

/// `base[index]`.
pub fn index(base: Value, key: &Value) -> (r: Value)
    ensures
        r@ == indexed(base@, key@),
{
    match &base {
        Value::Object(o) => {
            return match key {
                Value::Str(k) => object_member(o, k.as_str()),
                _ => Value::Undef,
            };
        },
        _ => {},
    }
    let i: u64 = match key {
        Value::Num(n) => *n,
        _ => {
            return Value::Undef;
        },
    };
    if less(i, 0) || !finite(i) {
        return Value::Undef;
    }
    element(&base, to_u64(i))
}

/// The component that a letter of `xyzw` names.
pub open spec fn xyzw(c: char) -> Option<int> {
    if c == 'x' {
        Some(0)
    } else if c == 'y' {
        Some(1)
    } else if c == 'z' {
        Some(2)
    } else if c == 'w' {
        Some(3)
    } else {
        None
    }
}

/// The component that a letter of `rgba` names.
pub open spec fn rgba(c: char) -> Option<int> {
    if c == 'r' {
        Some(0)
    } else if c == 'g' {
        Some(1)
    } else if c == 'b' {
        Some(2)
    } else if c == 'a' {
        Some(3)
    } else {
        None
    }
}

/// The components that a swizzle picks: letters of one set only.
pub open spec fn swizzle(field: Seq<char>) -> Option<Seq<int>> {
    if forall|i: int| 0 <= i < field.len() ==> xyzw(#[trigger] field[i]) is Some {
        Some(Seq::new(field.len(), |i: int| xyzw(field[i])->Some_0))
    } else if forall|i: int| 0 <= i < field.len() ==> rgba(#[trigger] field[i]) is Some {
        Some(Seq::new(field.len(), |i: int| rgba(field[i])->Some_0))
    } else {
        None
    }
}

/// `base.field`: a member of an object, or one to four components of a vector. One letter gives
/// the component, several the vector of them; a component beyond the end makes the whole `undef`.
pub open spec fn member_at(base: Val, field: Seq<char>) -> Val {
    match base {
        Val::Object(ms) => member_of(ms, field),
        _ => match (elements(base), swizzle(field)) {
            (Some(xs), Some(picks)) => if field.len() == 0 || field.len() > 4 {
                Val::Undef
            } else if exists|i: int| 0 <= i < picks.len() && (#[trigger] picks[i]) >= xs.len() {
                Val::Undef
            } else if picks.len() == 1 {
                xs[picks[0]]
            } else {
                vector_of(Seq::new(picks.len(), |i: int| xs[picks[i]]))
            },
            _ => Val::Undef,
        },
    }
}

fn xyzw_of(c: char) -> (r: Option<usize>)
    ensures
        match r {
            Some(i) => xyzw(c) == Some(i as int) && i < 4,
            None => xyzw(c) is None,
        },
{
    if c == 'x' {
        Some(0)
    } else if c == 'y' {
        Some(1)
    } else if c == 'z' {
        Some(2)
    } else if c == 'w' {
        Some(3)
    } else {
        None
    }
}

fn rgba_of(c: char) -> (r: Option<usize>)
    ensures
        match r {
            Some(i) => rgba(c) == Some(i as int) && i < 4,
            None => rgba(c) is None,
        },
{
    if c == 'r' {
        Some(0)
    } else if c == 'g' {
        Some(1)
    } else if c == 'b' {
        Some(2)
    } else if c == 'a' {
        Some(3)
    } else {
        None
    }
}

fn picks_of(cs: &Vec<char>) -> (r: Option<Vec<usize>>)
    ensures
        match r {
            Some(v) => swizzle(cs@) matches Some(p) && v@.len() == p.len() && forall|i: int|
                0 <= i < p.len() ==> p[i] == #[trigger] v@[i],
            None => swizzle(cs@) is None,
        },
{
    let mut out: Vec<usize> = Vec::new();
    let mut i: usize = 0;
    let mut ok: bool = true;
    while i < cs.len() && ok
        invariant
            i <= cs@.len(),
            out@.len() == i,
            forall|k: int| 0 <= k < i ==> xyzw(cs@[k]) == Some(#[trigger] out@[k] as int),
            !ok ==> i < cs@.len() && xyzw(cs@[i as int]) is None,
        decreases cs@.len() - i + if ok { 1int } else { 0int },
    {
        match xyzw_of(cs[i]) {
            Some(p) => {
                out.push(p);
                i += 1;
            },
            None => {
                ok = false;
            },
        }
    }
    if ok {
        assert(forall|k: int|
            0 <= k < cs@.len() ==> xyzw(#[trigger] cs@[k]) == Some(out@[k] as int));
        return Some(out);
    }
    assert(xyzw(cs@[i as int]) is None);
    let mut out: Vec<usize> = Vec::new();
    let mut i: usize = 0;
    while i < cs.len()
        invariant
            i <= cs@.len(),
            out@.len() == i,
            forall|k: int| 0 <= k < i ==> rgba(cs@[k]) == Some(#[trigger] out@[k] as int),
            exists|k: int| 0 <= k < cs@.len() && xyzw(#[trigger] cs@[k]) is None,
        decreases cs@.len() - i,
    {
        match rgba_of(cs[i]) {
            Some(p) => {
                out.push(p);
                i += 1;
            },
            None => {
                assert(rgba(cs@[i as int]) is None);
                return None;
            },
        }
    }
    assert(forall|k: int| 0 <= k < cs@.len() ==> rgba(#[trigger] cs@[k]) == Some(out@[k] as int));
    Some(out)
}

/// `base.field`.
pub fn member(base: Value, field: &str) -> (r: Value)
    ensures
        r@ == member_at(base@, field@),
{
    match &base {
        Value::Object(o) => {
            return object_member(o, field);
        },
        _ => {},
    }
    let len: usize = match list_len(&base) {
        Some(n) => n,
        None => {
            return Value::Undef;
        },
    };
    let cs: Vec<char> = chars_of(field);
    let picks: Vec<usize> = match picks_of(&cs) {
        Some(p) => p,
        None => {
            return Value::Undef;
        },
    };
    if cs.len() == 0 || cs.len() > 4 {
        return Value::Undef;
    }
    let ghost xs = elements(base@)->Some_0;
    let ghost ps = swizzle(field@)->Some_0;
    let mut out: Vec<Value> = Vec::new();
    let mut i: usize = 0;
    while i < picks.len()
        invariant
            elements(base@) == Some(xs),
            swizzle(field@) == Some(ps),
            !(base@ is Object),
            len == xs.len(),
            0 < field@.len() <= 4,
            picks@.len() == ps.len(),
            forall|k: int| 0 <= k < ps.len() ==> ps[k] == #[trigger] picks@[k],
            i <= picks@.len(),
            out@.len() == i,
            forall|k: int| 0 <= k < i ==> (#[trigger] ps[k]) < xs.len(),
            forall|k: int| 0 <= k < i ==> (#[trigger] out@[k])@ == xs[ps[k]],
        decreases picks@.len() - i,
    {
        let p: usize = picks[i];
        assert(ps[i as int] == picks@[i as int]);
        if p >= len {
            assert(ps[i as int] >= xs.len());
            return Value::Undef;
        }
        let e: Value = list_get(&base, p);
        assert(e@ == xs[ps[i as int]]);
        out.push(e);
        i += 1;
    }
    if out.len() == 1 {
        return out[0].clone();
    }
    assert(vals(out@) =~= Seq::new(ps.len(), |i: int| xs[ps[i]]));
    build_vector(out)
}

/// A number made from an integer.
pub open spec fn int_num(x: i64, f: spec_fn(FloatOp, u64, u64) -> u64) -> Val {
    Val::Num(f(FloatOp::FromInt, x as u64, 0))
}

fn int_value<F: Fn(FloatOp, u64, u64) -> u64>(x: i64, fpu: &F) -> (r: Value)
    requires
        unit_ok(*fpu),
    ensures
        r@ == int_num(x, unit(*fpu)),
{
    Value::Num(ask(fpu, FloatOp::FromInt, x as u64, 0))
}

/// A shift of integers, and the message where there is none: the amount must be in 0..64.
pub open spec fn shifted(x: u64, y: u64, left: bool, f: spec_fn(FloatOp, u64, u64) -> u64) -> (
    Val,
    Option<Seq<char>>,
) {
    let by = to_signed(y);
    if by < 0 {
        (Val::Undef, Some("negative shift"@))
    } else if by >= 64 {
        (Val::Undef, Some("shift too large"@))
    } else if left {
        (int_num((to_signed(x) as i64) << (by as u32), f), None)
    } else {
        (int_num((to_signed(x) as i64) >> (by as u32), f), None)
    }
}

fn shift<F: Fn(FloatOp, u64, u64) -> u64>(
    x: u64,
    y: u64,
    left: bool,
    warn: &mut Option<String>,
    fpu: &F,
) -> (r: Value)
    requires
        unit_ok(*fpu),
    ensures
        r@ == shifted(x, y, left, unit(*fpu)).0,
        slot_text(*final(warn)) == first_of(
            slot_text(*old(warn)),
            shifted(x, y, left, unit(*fpu)).1,
        ),
{
    let by: i64 = to_i64(y);
    if by < 0 {
        set_warn(warn, "negative shift".to_owned());
        return Value::Undef;
    }
    if by >= 64 {
        set_warn(warn, "shift too large".to_owned());
        return Value::Undef;
    }
    let amount: u32 = by as u32;
    let xi: i64 = to_i64(x);
    if left {
        int_value(xi << amount, fpu)
    } else {
        int_value(xi >> amount, fpu)
    }
}


/// What a binary operator makes of two values, and the message where it makes nothing of them.
pub open spec fn combined(op: BinOp, a: Val, b: Val, f: spec_fn(FloatOp, u64, u64) -> u64) -> (
    Val,
    Option<Seq<char>>,
) {
    let undefined = (Val::Undef, Some(undefined_text(type_word(a), symbol(op), type_word(b))));
    let both_vectors = elements(a) is Some && elements(b) is Some;
    match op {
        BinOp::Add => if a is Num && b is Num || both_vectors {
            (sum_of(FloatOp::Add, a, b, f), None)
        } else {
            undefined
        },
        BinOp::Sub => if a is Num && b is Num || both_vectors {
            (sum_of(FloatOp::Sub, a, b, f), None)
        } else {
            undefined
        },
        BinOp::Mul => match (a, b) {
            (Val::Num(s), v) => if v is Num || is_row_of(v) {
                (scaled(s, v, f), None)
            } else {
                undefined
            },
            (v, Val::Num(s)) => if is_row_of(v) {
                (scaled(s, v, f), None)
            } else {
                undefined
            },
            _ => if both_vectors {
                product_of(a, b, f)
            } else {
                undefined
            },
        },
        BinOp::Div => match (a, b) {
            (v, Val::Num(s)) => if v is Num || is_row_of(v) {
                (over_scalar(v, s, f), None)
            } else {
                undefined
            },
            (Val::Num(s), v) => if is_row_of(v) {
                (under_scalar(s, v, f), None)
            } else {
                undefined
            },
            _ => undefined,
        },
        BinOp::Mod => match (a, b) {
            (Val::Num(x), Val::Num(y)) => (Val::Num(f(FloatOp::Rem, x, y)), None),
            _ => undefined,
        },
        BinOp::Pow => match (a, b) {
            (Val::Num(x), Val::Num(y)) => (Val::Num(f(FloatOp::Pow, x, y)), None),
            _ => undefined,
        },
        BinOp::Eq => (Val::Bool(val_eq(a, b, f)), None),
        BinOp::Ne => (Val::Bool(!val_eq(a, b, f)), None),
        BinOp::Lt => ordered(op, a, b, f),
        BinOp::Le => ordered(op, a, b, f),
        BinOp::Gt => ordered(op, a, b, f),
        BinOp::Ge => ordered(op, a, b, f),
        BinOp::And => (Val::Bool(truthy(a) && truthy(b)), None),
        BinOp::Or => (Val::Bool(truthy(a) || truthy(b)), None),
        BinOp::BitOr => match (a, b) {
            (Val::Num(x), Val::Num(y)) => (
                int_num((to_signed(x) as i64) | (to_signed(y) as i64), f),
                None,
            ),
            _ => undefined,
        },
        BinOp::BitAnd => match (a, b) {
            (Val::Num(x), Val::Num(y)) => (
                int_num((to_signed(x) as i64) & (to_signed(y) as i64), f),
                None,
            ),
            _ => undefined,
        },
        BinOp::Shl => match (a, b) {
            (Val::Num(x), Val::Num(y)) => shifted(x, y, true, f),
            _ => undefined,
        },
        BinOp::Shr => match (a, b) {
            (Val::Num(x), Val::Num(y)) => shifted(x, y, false, f),
            _ => undefined,
        },
    }
}

/// Applies a binary operator; the message goes to `warn` unless one is there.
pub fn apply_binary_traced<F: Fn(FloatOp, u64, u64) -> u64>(
    op: BinOp,
    a: Value,
    b: Value,
    warn: &mut Option<String>,
    fpu: &F,
) -> (r: Value)
    requires
        unit_ok(*fpu),
    ensures
        r@ == combined(op, a@, b@, unit(*fpu)).0,
        slot_text(*final(warn)) == first_of(
            slot_text(*old(warn)),
            combined(op, a@, b@, unit(*fpu)).1,
        ),
{
    match op {
        BinOp::Add => {
            if is_num(&a) && is_num(&b) || list_len(&a).is_some() && list_len(&b).is_some() {
                sum_values(FloatOp::Add, &a, &b, fpu)
            } else {
                undef_op(op, &a, &b, warn)
            }
        },
        BinOp::Sub => {
            if is_num(&a) && is_num(&b) || list_len(&a).is_some() && list_len(&b).is_some() {
                sum_values(FloatOp::Sub, &a, &b, fpu)
            } else {
                undef_op(op, &a, &b, warn)
            }
        },
        BinOp::Mul => match (&a, &b) {
            (Value::Num(s), v) => {
                if is_num(v) || is_row(v) {
                    broadcast_value(Broadcast::Times, *s, v, fpu)
                } else {
                    undef_op(op, &a, &b, warn)
                }
            },
            (v, Value::Num(s)) => {
                if is_row(v) {
                    broadcast_value(Broadcast::Times, *s, v, fpu)
                } else {
                    undef_op(op, &a, &b, warn)
                }
            },
            _ => {
                if list_len(&a).is_some() && list_len(&b).is_some() {
                    mul_vectors(&a, &b, warn, fpu)
                } else {
                    undef_op(op, &a, &b, warn)
                }
            },
        },
        BinOp::Div => match (&a, &b) {
            (v, Value::Num(s)) => {
                if is_num(v) || is_row(v) {
                    broadcast_value(Broadcast::Over, *s, v, fpu)
                } else {
                    undef_op(op, &a, &b, warn)
                }
            },
            (Value::Num(s), v) => {
                if is_row(v) {
                    broadcast_value(Broadcast::Under, *s, v, fpu)
                } else {
                    undef_op(op, &a, &b, warn)
                }
            },
            _ => undef_op(op, &a, &b, warn),
        },
        BinOp::Mod => match (&a, &b) {
            (Value::Num(x), Value::Num(y)) => Value::Num(ask(fpu, FloatOp::Rem, *x, *y)),
            _ => undef_op(op, &a, &b, warn),
        },
        BinOp::Pow => match (&a, &b) {
            (Value::Num(x), Value::Num(y)) => Value::Num(ask(fpu, FloatOp::Pow, *x, *y)),
            _ => undef_op(op, &a, &b, warn),
        },
        BinOp::Eq => Value::Bool(a.eq(&b, fpu)),
        BinOp::Ne => Value::Bool(!a.eq(&b, fpu)),
        BinOp::Lt => order(op, &a, &b, warn, fpu),
        BinOp::Le => order(op, &a, &b, warn, fpu),
        BinOp::Gt => order(op, &a, &b, warn, fpu),
        BinOp::Ge => order(op, &a, &b, warn, fpu),
        BinOp::And => Value::Bool(a.is_truthy() && b.is_truthy()),
        BinOp::Or => Value::Bool(a.is_truthy() || b.is_truthy()),
        BinOp::BitOr => match (&a, &b) {
            (Value::Num(x), Value::Num(y)) => int_value(to_i64(*x) | to_i64(*y), fpu),
            _ => undef_op(op, &a, &b, warn),
        },
        BinOp::BitAnd => match (&a, &b) {
            (Value::Num(x), Value::Num(y)) => int_value(to_i64(*x) & to_i64(*y), fpu),
            _ => undef_op(op, &a, &b, warn),
        },
        BinOp::Shl => match (&a, &b) {
            (Value::Num(x), Value::Num(y)) => shift(*x, *y, true, warn, fpu),
            _ => undef_op(op, &a, &b, warn),
        },
        BinOp::Shr => match (&a, &b) {
            (Value::Num(x), Value::Num(y)) => shift(*x, *y, false, warn, fpu),
            _ => undef_op(op, &a, &b, warn),
        },
    }
}

fn is_num(v: &Value) -> (r: bool)
    ensures
        r == (v@ is Num),
{
    match v {
        Value::Num(_) => true,
        _ => false,
    }
}

/// Applies a binary operator without a message.
pub fn apply_binary<F: Fn(FloatOp, u64, u64) -> u64>(op: BinOp, a: Value, b: Value, fpu: &F) -> (r:
    Value)
    requires
        unit_ok(*fpu),
    ensures
        r@ == combined(op, a@, b@, unit(*fpu)).0,
{
    let mut none: Option<String> = None;
    apply_binary_traced(op, a, b, &mut none, fpu)
}

/// The console after an operation that may have a message.
pub open spec fn with_warning(log: Seq<Line>, w: Option<Seq<char>>) -> Seq<Line> {
    match w {
        Some(t) => log.push(Line::Warning(t)),
        None => log,
    }
}

/// Applies a binary operator; a message becomes a warning on the console.
pub fn binary<F: Fn(FloatOp, u64, u64) -> u64>(
    console: &mut Vec<Message>,
    op: BinOp,
    a: Value,
    b: Value,
    fpu: &F,
) -> (r: Value)
    requires
        unit_ok(*fpu),
    ensures
        r@ == combined(op, a@, b@, unit(*fpu)).0,
        lines(final(console)@) == with_warning(
            lines(old(console)@),
            combined(op, a@, b@, unit(*fpu)).1,
        ),
{
    broadcast use crate::message::lemma_lines_push;

    let mut warn: Option<String> = None;
    let r: Value = apply_binary_traced(op, a, b, &mut warn, fpu);
    match warn {
        Some(w) => {
            console.push(Message::Warning(w));
        },
        None => {},
    }
    r
}

/// The value negated: a number, or a vector element by element at any depth.
pub open spec fn negative_of(v: Val) -> Val
    decreases v,
{
    match v {
        Val::Num(x) => Val::Num(negated(x)),
        Val::NumList(xs) => Val::NumList(Seq::new(xs.len(), |i: int| negated(xs[i]))),
        Val::List(xs) => Val::List(
            Seq::new(
                xs.len(),
                |i: int|
                    if 0 <= i < xs.len() {
                        negative_of(xs[i])
                    } else {
                        Val::Undef
                    },
            ),
        ),
        _ => Val::Undef,
    }
}

fn negate_value(v: &Value) -> (r: Value)
    ensures
        r@ == negative_of(v@),
    decreases depth(v@),
{
    match v {
        Value::Num(x) => Value::Num(negate(*x)),
        Value::NumList(xs) => {
            let mut out: Vec<u64> = Vec::new();
            let mut i: usize = 0;
            while i < xs.len()
                invariant
                    i <= xs@.len(),
                    out@.len() == i,
                    forall|k: int| 0 <= k < i ==> (#[trigger] out@[k]) == negated(xs@[k]),
                decreases xs@.len() - i,
            {
                out.push(negate(xs[i]));
                i += 1;
            }
            let r = Value::num_list(out);
            assert(r@->NumList_0 =~= negative_of(v@)->NumList_0);
            r
        },
        Value::List(xs) => {
            proof {
                lemma_list_view(*xs);
            }
            let ghost vs = vals(xs.0@);
            let mut out: Vec<Value> = Vec::new();
            let mut i: usize = 0;
            while i < xs.0.len()
                invariant
                    i <= xs.0@.len(),
                    v@ == Val::List(vs),
                    vs == vals(xs.0@),
                    out@.len() == i,
                    forall|k: int| 0 <= k < i ==> (#[trigger] out@[k])@ == negative_of(vs[k]),
                decreases xs.0@.len() - i,
            {
                proof {
                    lemma_depth_element(v@, i as int);
                }
                out.push(negate_value(&xs.0[i]));
                i += 1;
            }
            let r = Value::list(out);
            assert(r@->List_0 =~= negative_of(v@)->List_0);
            r
        },
        _ => Value::Undef,
    }
}

/// What a prefix operator makes of a value, and the message where it makes nothing of it.
pub open spec fn transformed(op: UnOp, v: Val, f: spec_fn(FloatOp, u64, u64) -> u64) -> (
    Val,
    Option<Seq<char>>,
) {
    match op {
        UnOp::Neg => if v is Num || is_row_of(v) {
            (negative_of(v), None)
        } else {
            (Val::Undef, Some("undefined operation (-"@ + type_word(v) + ")"@))
        },
        UnOp::Pos => (v, None),
        UnOp::Not => (Val::Bool(!truthy(v)), None),
        UnOp::BitNot => match v {
            Val::Num(x) => (int_num(!(to_signed(x) as i64), f), None),
            _ => (Val::Undef, Some("undefined operation (~"@ + type_word(v) + ")"@)),
        },
    }
}

/// Applies a prefix operator; the message goes to `warn` unless one is there.
pub fn apply_unary_traced<F: Fn(FloatOp, u64, u64) -> u64>(
    op: UnOp,
    v: Value,
    warn: &mut Option<String>,
    fpu: &F,
) -> (r: Value)
    requires
        unit_ok(*fpu),
    ensures
        r@ == transformed(op, v@, unit(*fpu)).0,
        slot_text(*final(warn)) == first_of(
            slot_text(*old(warn)),
            transformed(op, v@, unit(*fpu)).1,
        ),
{
    match op {
        UnOp::Neg => {
            if is_num(&v) || is_row(&v) {
                negate_value(&v)
            } else {
                set_warn(warn, cat3("undefined operation (-", word(&v), ")"));
                Value::Undef
            }
        },
        UnOp::Pos => v,
        UnOp::Not => Value::Bool(!v.is_truthy()),
        UnOp::BitNot => match &v {
            Value::Num(x) => int_value(!to_i64(*x), fpu),
            _ => {
                set_warn(warn, cat3("undefined operation (~", word(&v), ")"));
                Value::Undef
            },
        },
    }
}

/// Applies a prefix operator without a message.
pub fn apply_unary<F: Fn(FloatOp, u64, u64) -> u64>(op: UnOp, v: Value, fpu: &F) -> (r: Value)
    requires
        unit_ok(*fpu),
    ensures
        r@ == transformed(op, v@, unit(*fpu)).0,
{
    let mut none: Option<String> = None;
    apply_unary_traced(op, v, &mut none, fpu)
}

/// Applies a prefix operator; a message becomes a warning on the console.
pub fn unary<F: Fn(FloatOp, u64, u64) -> u64>(
    console: &mut Vec<Message>,
    op: UnOp,
    v: Value,
    fpu: &F,
) -> (r: Value)
    requires
        unit_ok(*fpu),
    ensures
        r@ == transformed(op, v@, unit(*fpu)).0,
        lines(final(console)@) == with_warning(
            lines(old(console)@),
            transformed(op, v@, unit(*fpu)).1,
        ),
{
    broadcast use crate::message::lemma_lines_push;

    let mut warn: Option<String> = None;
    let r: Value = apply_unary_traced(op, v, &mut warn, fpu);
    match warn {
        Some(w) => {
            console.push(Message::Warning(w));
        },
        None => {},
    }
    r
}

/// A shift is only ever made by an amount that fits the width, and it has a value exactly then.
pub proof fn law_shift_is_guarded(x: u64, y: u64, left: bool, f: spec_fn(FloatOp, u64, u64) -> u64)
    ensures
        shifted(x, y, left, f).0 is Num <==> 0 <= to_signed(y) < 64,
        shifted(x, y, left, f).1 is Some <==> !(0 <= to_signed(y) < 64),
{
}

/// Adding or subtracting vectors gives a vector as long as the shorter one.
pub proof fn law_sum_truncates(op: FloatOp, a: Val, b: Val, f: spec_fn(FloatOp, u64, u64) -> u64)
    requires
        elements(a) is Some,
        elements(b) is Some,
    ensures
        elements(sum_of(op, a, b, f)) matches Some(xs) && xs.len() == min_len(
            elements(a)->Some_0.len(),
            elements(b)->Some_0.len(),
        ),
{
}

/// A comparison of ordered types always has a value that is true or false, unless a difference of
/// type is hidden inside vectors; every other comparison is `undef` with a message.
pub proof fn law_ordering_is_total_on_scalars(
    op: BinOp,
    a: Val,
    b: Val,
    f: spec_fn(FloatOp, u64, u64) -> u64,
)
    ensures
        orderable(a, b) && elements(a) is None ==> ordered(op, a, b, f).0 is Bool && ordered(
            op,
            a,
            b,
            f,
        ).1 is None,
        !orderable(a, b) ==> ordered(op, a, b, f).0 is Undef && ordered(op, a, b, f).1 is Some,
{
}

/// Equality never says why: it has no message, and it is always true or false.
pub proof fn law_equality_never_warns(a: Val, b: Val, f: spec_fn(FloatOp, u64, u64) -> u64)
    ensures
        combined(BinOp::Eq, a, b, f) == (Val::Bool(val_eq(a, b, f)), None::<Seq<char>>),
        combined(BinOp::Ne, a, b, f) == (Val::Bool(!val_eq(a, b, f)), None::<Seq<char>>),
{
}

}

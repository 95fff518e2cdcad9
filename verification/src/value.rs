//! The runtime values.
//!
//! A vector of numbers is held as `NumList`, any other vector as `List`; the two are one type to
//! the language and compare equal element for element. Payloads are shared, so a copy is cheap.

use std::rc::Rc;

use vstd::prelude::*;

use crate::ast::{same_name, Name};
use crate::chars::Rank;
use crate::num::{
    ask, equal, finite, is_finite, is_nan, is_zero, law_unsigned_in_range, less, nan, next_up, next_up_of, num_eq, num_lt,
    num_rank, rank, to_u64, to_unsigned, unit, unit_ok, zero, FloatOp,
};
use crate::object::{has, members_of, ObjectMap};
use crate::scope::Scope;

verus! {

/// A runtime value.
#[derive(Debug)]
pub enum Value {
    /// The absence of a value.
    Undef,
    Bool(bool),
    /// A number, as the bits of a double.
    Num(u64),
    Str(Name),
    /// A vector whose elements are all numbers.
    NumList(Rc<Vec<u64>>),
    /// Any other vector.
    List(ValueList),
    /// A lazy range `[start : step : end]`.
    Range { start: u64, step: u64, end: u64 },
    /// A function value: its code is entry `closure_id` of the closure table, `env` the scope it
    /// captured, `self_name` the name it was first bound to, `repr` its printed form, `group` the
    /// functions defined beside it, `bound_this` the object it was taken out of.
    Function {
        closure_id: usize,
        env: Scope,
        self_name: Option<Name>,
        repr: Name,
        group: Option<Rc<Vec<SiblingFn>>>,
        bound_this: Option<Rc<ObjectMap>>,
    },
    /// An insertion-ordered map from names to values.
    Object(Rc<ObjectMap>),
}

/// One member of a group of functions that can call each other.
#[derive(Debug)]
pub struct SiblingFn {
    /// The name it is bound to.
    pub name: Name,
    /// Its entry in the closure table.
    pub closure_id: usize,
    /// Its printed form.
    pub repr: Name,
}

/// The elements of a general list, shared.
#[derive(Debug)]
pub struct ValueList(pub Rc<Vec<Value>>);

/// A value, mathematically.
pub enum Val {
    Undef,
    Bool(bool),
    Num(u64),
    Str(Seq<char>),
    NumList(Seq<u64>),
    List(Seq<Val>),
    Range { start: u64, step: u64, end: u64 },
    Function {
        closure_id: usize,
        env: Scope,
        self_name: Option<Seq<char>>,
        repr: Seq<char>,
        group: Option<Seq<Sibling>>,
        bound_this: Option<Seq<(Seq<char>, Val)>>,
    },
    Object(Seq<(Seq<char>, Val)>),
}

/// A group member, mathematically.
pub struct Sibling {
    pub name: Seq<char>,
    pub closure_id: usize,
    pub repr: Seq<char>,
}

impl View for SiblingFn {
    type V = Sibling;

    open spec fn view(&self) -> Sibling {
        Sibling { name: self.name@, closure_id: self.closure_id, repr: self.repr@ }
    }
}

/// The members of a group, mathematically.
pub open spec fn siblings(g: Seq<SiblingFn>) -> Seq<Sibling> {
    Seq::new(g.len(), |i: int| g[i]@)
}

/// The mathematical value behind a runtime value.
pub open spec fn val_of(v: Value) -> Val
    decreases v,
{
    match v {
        Value::Undef => Val::Undef,
        Value::Bool(b) => Val::Bool(b),
        Value::Num(n) => Val::Num(n),
        Value::Str(s) => Val::Str(s@),
        Value::NumList(xs) => Val::NumList(xs@),
        Value::List(xs) => Val::List(
            Seq::new(
                xs.0@.len(),
                |i: int|
                    if 0 <= i < xs.0@.len() {
                        val_of(xs.0@[i])
                    } else {
                        Val::Undef
                    },
            ),
        ),
        Value::Range { start, step, end } => Val::Range { start, step, end },
        Value::Function { closure_id, env, self_name, repr, group, bound_this } => Val::Function {
            closure_id,
            env,
            self_name: match self_name {
                Some(s) => Some(s@),
                None => None,
            },
            repr: repr@,
            group: match group {
                Some(g) => Some(siblings(g@)),
                None => None,
            },
            bound_this: match bound_this {
                Some(o) => Some(members_of(*o)),
                None => None,
            },
        },
        Value::Object(o) => Val::Object(members_of(*o)),
    }
}

impl View for Value {
    type V = Val;

    open spec fn view(&self) -> Val {
        val_of(*self)
    }
}

/// A row of values, mathematically.
pub open spec fn vals(s: Seq<Value>) -> Seq<Val> {
    Seq::new(s.len(), |i: int| s[i]@)
}

/// The views of a list value's elements.
pub proof fn lemma_list_view(xs: ValueList)
    ensures
        val_of(Value::List(xs)) == Val::List(vals(xs.0@)),
{
    assert(val_of(Value::List(xs))->List_0 =~= vals(xs.0@));
}

/// Growing a row of values.
pub broadcast proof fn lemma_vals_push(s: Seq<Value>, v: Value)
    ensures
        #[trigger] vals(s.push(v)) == vals(s).push(v@),
{
    assert(vals(s.push(v)) =~= vals(s).push(v@));
}

impl Clone for Value {
    fn clone(&self) -> (r: Self)
        ensures
            r == *self,
    {
        match self {
            Value::Undef => Value::Undef,
            Value::Bool(b) => Value::Bool(*b),
            Value::Num(n) => Value::Num(*n),
            Value::Str(s) => Value::Str(s.clone()),
            Value::NumList(xs) => Value::NumList(xs.clone()),
            Value::List(xs) => Value::List(ValueList(xs.0.clone())),
            Value::Range { start, step, end } => Value::Range {
                start: *start,
                step: *step,
                end: *end,
            },
            Value::Function { closure_id, env, self_name, repr, group, bound_this } =>
                Value::Function {
                    closure_id: *closure_id,
                    env: *env,
                    self_name: match self_name {
                        Some(s) => Some(s.clone()),
                        None => None,
                    },
                    repr: repr.clone(),
                    group: match group {
                        Some(g) => Some(g.clone()),
                        None => None,
                    },
                    bound_this: match bound_this {
                        Some(o) => Some(o.clone()),
                        None => None,
                    },
                },
            Value::Object(o) => Value::Object(o.clone()),
        }
    }
}


/// Iteration over a range stops here.
pub const RANGE_MAX: u64 = 10_000_000;

/// From this many values on a range is refused as an iterable.
pub const RANGE_TOO_MANY: u64 = 4_294_967_295;

/// The number of values of a range: one more than the whole steps from `start` to `end`, nothing
/// for a zero or undefined step, an infinite bound or a step in the wrong direction. The quotient
/// is taken one double higher, so that an end point missed by rounding still counts.
pub open spec fn range_count(
    start: u64,
    step: u64,
    end: u64,
    f: spec_fn(FloatOp, u64, u64) -> u64,
) -> int {
    if is_zero(step) || is_nan(step) || !is_finite(start) || !is_finite(end) {
        0
    } else if num_lt(step, 0) && num_lt(start, end) {
        0
    } else if !num_lt(step, 0) && num_lt(end, start) {
        0
    } else {
        let quotient = f(FloatOp::Div, f(FloatOp::Sub, end, start), step);
        let whole = to_unsigned(next_up_of(quotient), u64::MAX as int);
        if whole == u64::MAX {
            whole
        } else {
            whole + 1
        }
    }
}

/// The number of values of a range fits a machine word.
pub proof fn law_range_count_in_range(
    start: u64,
    step: u64,
    end: u64,
    f: spec_fn(FloatOp, u64, u64) -> u64,
)
    ensures
        0 <= range_count(start, step, end, f) <= u64::MAX,
{
    let quotient = f(FloatOp::Div, f(FloatOp::Sub, end, start), step);
    law_unsigned_in_range(next_up_of(quotient), u64::MAX as int);
}

/// The `i`-th value of a range.
pub open spec fn range_at(
    start: u64,
    step: u64,
    i: int,
    f: spec_fn(FloatOp, u64, u64) -> u64,
) -> u64 {
    if i == 0 {
        start
    } else {
        f(FloatOp::Add, start, f(FloatOp::Mul, f(FloatOp::FromInt, i as u64, 0), step))
    }
}

/// How many values iterating a range yields.
pub open spec fn range_steps(
    start: u64,
    step: u64,
    end: u64,
    f: spec_fn(FloatOp, u64, u64) -> u64,
) -> int {
    if range_count(start, step, end, f) > RANGE_MAX {
        RANGE_MAX as int
    } else {
        range_count(start, step, end, f)
    }
}

/// The values that iterating a range yields.
pub open spec fn range_nums(
    start: u64,
    step: u64,
    end: u64,
    f: spec_fn(FloatOp, u64, u64) -> u64,
) -> Seq<u64> {
    Seq::new(range_steps(start, step, end, f) as nat, |i: int| range_at(start, step, i, f))
}

/// The number of values of a range.
pub fn range_len<F: Fn(FloatOp, u64, u64) -> u64>(start: u64, step: u64, end: u64, fpu: &F) -> (r:
    u64)
    requires
        unit_ok(*fpu),
    ensures
        r == range_count(start, step, end, unit(*fpu)),
{
    if zero(step) || nan(step) || !finite(start) || !finite(end) {
        return 0;
    }
    if less(step, 0) {
        if less(start, end) {
            return 0;
        }
    } else if less(end, start) {
        return 0;
    }
    let quotient: u64 = ask(fpu, FloatOp::Div, ask(fpu, FloatOp::Sub, end, start), step);
    let whole: u64 = to_u64(next_up(quotient));
    if whole == u64::MAX {
        whole
    } else {
        whole + 1
    }
}

/// A walk over the values of a range.
#[derive(Debug, Clone, Copy)]
pub struct RangeIter {
    pub start: u64,
    pub step: u64,
    pub i: u64,
    pub len: u64,
}

/// Starts a walk over the values of a range.
pub fn range_iter<F: Fn(FloatOp, u64, u64) -> u64>(start: u64, step: u64, end: u64, fpu: &F) -> (r:
    RangeIter)
    requires
        unit_ok(*fpu),
    ensures
        r.start == start,
        r.step == step,
        r.i == 0,
        r.len == range_steps(start, step, end, unit(*fpu)),
        r.len <= RANGE_MAX,
{
    let n: u64 = range_len(start, step, end, fpu);
    RangeIter {
        start,
        step,
        i: 0,
        len: if n > RANGE_MAX {
            RANGE_MAX
        } else {
            n
        },
    }
}

impl RangeIter {
    /// The next value, with one step of progress; nothing, and no progress, at the end.
    pub fn next<F: Fn(FloatOp, u64, u64) -> u64>(&mut self, fpu: &F) -> (r: Option<u64>)
        requires
            unit_ok(*fpu),
        ensures
            final(self).start == old(self).start,
            final(self).step == old(self).step,
            final(self).len == old(self).len,
            old(self).i >= old(self).len ==> r is None && final(self).i == old(self).i,
            old(self).i < old(self).len ==> final(self).i == old(self).i + 1 && r == Some(
                range_at(old(self).start, old(self).step, old(self).i as int, unit(*fpu)),
            ),
    {
        if self.i >= self.len {
            return None;
        }
        let v: u64 = if self.i == 0 {
            self.start
        } else {
            let i: u64 = ask(fpu, FloatOp::FromInt, self.i, 0);
            ask(fpu, FloatOp::Add, self.start, ask(fpu, FloatOp::Mul, i, self.step))
        };
        self.i = self.i + 1;
        Some(v)
    }
}

/// All values that iterating a range yields.
pub fn range_numbers<F: Fn(FloatOp, u64, u64) -> u64>(
    start: u64,
    step: u64,
    end: u64,
    fpu: &F,
) -> (r: Vec<u64>)
    requires
        unit_ok(*fpu),
    ensures
        r@ == range_nums(start, step, end, unit(*fpu)),
{
    let mut it: RangeIter = range_iter(start, step, end, fpu);
    let mut out: Vec<u64> = Vec::new();
    let ghost all = range_nums(start, step, end, unit(*fpu));
    loop
        invariant
            unit_ok(*fpu),
            it.start == start,
            it.step == step,
            it.i <= it.len,
            it.len == range_steps(start, step, end, unit(*fpu)),
            all == range_nums(start, step, end, unit(*fpu)),
            out@ == all.take(it.i as int),
        decreases it.len - it.i,
    {
        match it.next(fpu) {
            Some(v) => {
                out.push(v);
                assert(out@ =~= all.take(it.i as int));
            },
            None => {
                assert(all.take(it.i as int) =~= all);
                return out;
            },
        }
    }
}

/// The place of one range before, at or after another, as the sequences they iterate.
pub open spec fn range_rank_of(
    a: (u64, u64, u64),
    b: (u64, u64, u64),
    f: spec_fn(FloatOp, u64, u64) -> u64,
) -> Option<Rank> {
    let n = range_count(a.0, a.1, a.2, f);
    let m = range_count(b.0, b.1, b.2, f);
    if n == 0 && m == 0 {
        Some(Rank::Equal)
    } else if n == 0 {
        Some(Rank::Less)
    } else if m == 0 {
        Some(Rank::Greater)
    } else if num_rank(a.0, b.0) != Some(Rank::Equal) {
        num_rank(a.0, b.0)
    } else if n >= 2 && m >= 2 && num_rank(a.1, b.1) != Some(Rank::Equal) {
        num_rank(a.1, b.1)
    } else if n < m {
        Some(Rank::Less)
    } else if n == m {
        Some(Rank::Equal)
    } else {
        Some(Rank::Greater)
    }
}

/// Compares two ranges as the sequences they iterate, without iterating them.
pub fn range_seq_rank<F: Fn(FloatOp, u64, u64) -> u64>(
    a: (u64, u64, u64),
    b: (u64, u64, u64),
    fpu: &F,
) -> (r: Option<Rank>)
    requires
        unit_ok(*fpu),
    ensures
        r == range_rank_of(a, b, unit(*fpu)),
{
    let n: u64 = range_len(a.0, a.1, a.2, fpu);
    let m: u64 = range_len(b.0, b.1, b.2, fpu);
    if n == 0 && m == 0 {
        return Some(Rank::Equal);
    }
    if n == 0 {
        return Some(Rank::Less);
    }
    if m == 0 {
        return Some(Rank::Greater);
    }
    match rank(a.0, b.0) {
        Some(Rank::Equal) => {},
        other => {
            return other;
        },
    }
    if n >= 2 && m >= 2 {
        match rank(a.1, b.1) {
            Some(Rank::Equal) => {},
            other => {
                return other;
            },
        }
    }
    if n < m {
        Some(Rank::Less)
    } else if n == m {
        Some(Rank::Equal)
    } else {
        Some(Rank::Greater)
    }
}

/// A range is never outside the order of ranges, and it equals itself.
pub proof fn law_ranges_are_comparable(
    a: (u64, u64, u64),
    b: (u64, u64, u64),
    f: spec_fn(FloatOp, u64, u64) -> u64,
)
    ensures
        range_rank_of(a, b, f) is Some,
        range_rank_of(a, a, f) == Some(Rank::Equal),
{
}

/// What counts as true: everything but `undef`, `false`, a zero, an empty text, an empty vector
/// and an object without members.
pub open spec fn truthy(v: Val) -> bool {
    match v {
        Val::Undef => false,
        Val::Bool(b) => b,
        Val::Num(n) => !is_zero(n),
        Val::Str(s) => s.len() > 0,
        Val::NumList(xs) => xs.len() > 0,
        Val::List(xs) => xs.len() > 0,
        Val::Range { .. } => true,
        Val::Function { .. } => true,
        Val::Object(ms) => ms.len() > 0,
    }
}

/// The language's `==`: no coercion between types, the two list forms one type, ranges by what
/// they iterate, functions by identity, objects by their members whatever the order.
pub open spec fn val_eq(a: Val, b: Val, f: spec_fn(FloatOp, u64, u64) -> u64) -> bool
    decreases a,
{
    match (a, b) {
        (Val::Undef, Val::Undef) => true,
        (Val::Bool(x), Val::Bool(y)) => x == y,
        (Val::Num(x), Val::Num(y)) => num_eq(x, y),
        (Val::Str(x), Val::Str(y)) => x == y,
        (Val::NumList(x), Val::NumList(y)) => {
            &&& x.len() == y.len()
            &&& forall|i: int| 0 <= i < x.len() ==> num_eq(#[trigger] x[i], y[i])
        },
        (Val::List(x), Val::List(y)) => {
            &&& x.len() == y.len()
            &&& forall|i: int| 0 <= i < x.len() ==> val_eq(#[trigger] x[i], y[i], f)
        },
        (Val::NumList(x), Val::List(y)) => {
            &&& x.len() == y.len()
            &&& forall|i: int|
                0 <= i < x.len() ==> ((#[trigger] y[i]) matches Val::Num(n) && num_eq(x[i], n))
        },
        (Val::List(x), Val::NumList(y)) => {
            &&& x.len() == y.len()
            &&& forall|i: int|
                0 <= i < x.len() ==> ((#[trigger] x[i]) matches Val::Num(n) && num_eq(y[i], n))
        },
        (
            Val::Range { start, step, end },
            Val::Range { start: start2, step: step2, end: end2 },
        ) => range_rank_of((start, step, end), (start2, step2, end2), f) == Some(Rank::Equal),
        (
            Val::Function { closure_id, env, .. },
            Val::Function { closure_id: closure_id2, env: env2, .. },
        ) => closure_id == closure_id2 && env == env2,
        (Val::Object(x), Val::Object(y)) => {
            &&& x.len() == y.len()
            &&& forall|i: int| 0 <= i < x.len() ==> has(y, (#[trigger] x[i]).0)
            &&& forall|j: int| 0 <= j < y.len() ==> has(x, (#[trigger] y[j]).0)
            &&& forall|i: int, j: int|
                0 <= i < x.len() && 0 <= j < y.len() && (#[trigger] x[i]).0 == (#[trigger] y[j]).0
                    ==> val_eq(x[i].1, y[j].1, f)
        },
        _ => false,
    }
}

impl Value {
    /// A text value.
    pub fn string(s: &str) -> (r: Value)
        ensures
            r@ == Val::Str(s@),
    {
        Value::Str(Rc::new(s.to_owned()))
    }

    /// A vector of numbers.
    pub fn num_list(xs: Vec<u64>) -> (r: Value)
        ensures
            r@ == Val::NumList(xs@),
    {
        Value::NumList(Rc::new(xs))
    }

    /// A general list.
    pub fn list(xs: Vec<Value>) -> (r: Value)
        ensures
            r@ == Val::List(vals(xs@)),
    {
        let r = Value::List(ValueList(Rc::new(xs)));
        proof {
            lemma_list_view(r->List_0);
        }
        r
    }

    /// Whether the value counts as true.
    pub fn is_truthy(&self) -> (r: bool)
        ensures
            r == truthy(self@),
    {
        match self {
            Value::Undef => false,
            Value::Bool(b) => *b,
            Value::Num(n) => !zero(*n),
            Value::Str(s) => !s.as_str().is_empty(),
            Value::NumList(xs) => xs.len() != 0,
            Value::List(xs) => {
                proof {
                    lemma_list_view(*xs);
                }
                xs.0.len() != 0
            },
            Value::Range { .. } => true,
            Value::Function { .. } => true,
            Value::Object(o) => !o.is_empty(),
        }
    }

    /// The name of the value's type.
    pub fn kind_name(&self) -> (r: &'static str)
        ensures
            r@ == kind_text(self@),
    {
        match self {
            Value::Undef => "undef",
            Value::Bool(_) => "bool",
            Value::Num(_) => "number",
            Value::Str(_) => "string",
            Value::NumList(_) => "list",
            Value::List(_) => "list",
            Value::Range { .. } => "range",
            Value::Function { .. } => "function",
            Value::Object(_) => "object",
        }
    }

    /// The language's `==`.
    pub fn eq<F: Fn(FloatOp, u64, u64) -> u64>(&self, other: &Value, fpu: &F) -> (r: bool)
        requires
            unit_ok(*fpu),
        ensures
            r == val_eq(self@, other@, unit(*fpu)),
        decreases self,
    {
        match (self, other) {
            (Value::Undef, Value::Undef) => true,
            (Value::Bool(a), Value::Bool(b)) => *a == *b,
            (Value::Num(a), Value::Num(b)) => equal(*a, *b),
            (Value::Str(a), Value::Str(b)) => same_name(a, b),
            (Value::NumList(a), Value::NumList(b)) => nums_equal(a, b),
            (Value::List(a), Value::List(b)) => {
                proof {
                    lemma_list_view(*a);
                    lemma_list_view(*b);
                }
                lists_equal(a, b, fpu)
            },
            (Value::NumList(n), Value::List(l)) => {
                proof {
                    lemma_list_view(*l);
                }
                nums_match(n, l)
            },
            (Value::List(l), Value::NumList(n)) => {
                proof {
                    lemma_list_view(*l);
                }
                nums_match(n, l)
            },
            (
                Value::Range { start, step, end },
                Value::Range { start: start2, step: step2, end: end2 },
            ) => match range_seq_rank((*start, *step, *end), (*start2, *step2, *end2), fpu) {
                Some(Rank::Equal) => true,
                _ => false,
            },
            (
                Value::Function { closure_id, env, .. },
                Value::Function { closure_id: closure_id2, env: env2, .. },
            ) => *closure_id == *closure_id2 && env.same_frame(env2),
            (Value::Object(a), Value::Object(b)) => a.eq(b, fpu),
            _ => false,
        }
    }
}

/// Whether two optional names are the same.
fn same_option(a: &Option<Name>, b: &Option<Name>) -> (r: bool)
    ensures
        r == (match (*a, *b) {
            (Some(x), Some(y)) => x@ == y@,
            (None, None) => true,
            _ => false,
        }),
{
    match (a, b) {
        (Some(x), Some(y)) => same_name(x, y),
        (None, None) => true,
        _ => false,
    }
}

/// Whether two groups of functions are the same.
fn same_group(a: &Vec<SiblingFn>, b: &Vec<SiblingFn>) -> (r: bool)
    ensures
        r == (siblings(a@) == siblings(b@)),
{
    if a.len() != b.len() {
        assert(siblings(a@).len() != siblings(b@).len());
        return false;
    }
    let mut i: usize = 0;
    while i < a.len()
        invariant
            i <= a@.len(),
            a@.len() == b@.len(),
            forall|k: int| 0 <= k < i ==> #[trigger] siblings(a@)[k] == siblings(b@)[k],
        decreases a@.len() - i,
    {
        if !(same_name(&a[i].name, &b[i].name) && a[i].closure_id == b[i].closure_id && same_name(
            &a[i].repr,
            &b[i].repr,
        )) {
            assert(siblings(a@)[i as int] != siblings(b@)[i as int]);
            return false;
        }
        i += 1;
    }
    assert(siblings(a@) =~= siblings(b@));
    true
}

/// Whether two vectors of numbers hold the same bits.
fn nums_same(a: &Vec<u64>, b: &Vec<u64>) -> (r: bool)
    ensures
        r == (a@ == b@),
{
    if a.len() != b.len() {
        return false;
    }
    let mut i: usize = 0;
    while i < a.len()
        invariant
            i <= a@.len(),
            a@.len() == b@.len(),
            forall|k: int| 0 <= k < i ==> a@[k] == b@[k],
        decreases a@.len() - i,
    {
        if a[i] != b[i] {
            return false;
        }
        i += 1;
    }
    assert(a@ =~= b@);
    true
}

/// Whether two lists hold exactly the same values.
fn lists_same(a: &ValueList, b: &ValueList) -> (r: bool)
    ensures
        r == (vals(a.0@) == vals(b.0@)),
    decreases a,
{
    let ghost va = vals(a.0@);
    let ghost vb = vals(b.0@);
    if a.0.len() != b.0.len() {
        assert(va.len() != vb.len());
        return false;
    }
    let mut i: usize = 0;
    while i < a.0.len()
        invariant
            i <= a.0@.len(),
            a.0@.len() == b.0@.len(),
            va == vals(a.0@),
            vb == vals(b.0@),
            forall|k: int| 0 <= k < i ==> #[trigger] va[k] == vb[k],
        decreases a.0@.len() - i,
    {
        if !a.0[i].same_bits(&b.0[i]) {
            assert(va[i as int] != vb[i as int]);
            return false;
        }
        i += 1;
    }
    assert(va =~= vb);
    true
}

impl Value {
    /// Whether two values are exactly the same: numbers bit for bit, so that a NaN is itself and the
    /// zeros are two, functions by their code, scope and all that they carry.
    pub fn same_bits(&self, other: &Value) -> (r: bool)
        ensures
            r == (self@ == other@),
        decreases self,
    {
        match (self, other) {
            (Value::Undef, Value::Undef) => true,
            (Value::Bool(a), Value::Bool(b)) => *a == *b,
            (Value::Num(a), Value::Num(b)) => *a == *b,
            (Value::Str(a), Value::Str(b)) => same_name(a, b),
            (Value::NumList(a), Value::NumList(b)) => nums_same(a, b),
            (Value::List(a), Value::List(b)) => {
                proof {
                    lemma_list_view(*a);
                    lemma_list_view(*b);
                }
                lists_same(a, b)
            },
            (
                Value::Range { start, step, end },
                Value::Range { start: start2, step: step2, end: end2 },
            ) => *start == *start2 && *step == *step2 && *end == *end2,
            (
                Value::Function { closure_id, env, self_name, repr, group, bound_this },
                Value::Function {
                    closure_id: closure_id2,
                    env: env2,
                    self_name: self_name2,
                    repr: repr2,
                    group: group2,
                    bound_this: bound_this2,
                },
            ) => {
                let groups: bool = match (group, group2) {
                    (Some(g), Some(g2)) => same_group(g, g2),
                    (None, None) => true,
                    _ => false,
                };
                let this: bool = match (bound_this, bound_this2) {
                    (Some(o), Some(o2)) => o.same_bits(o2),
                    (None, None) => true,
                    _ => false,
                };
                *closure_id == *closure_id2 && env.same_frame(env2) && same_option(
                    self_name,
                    self_name2,
                ) && same_name(repr, repr2) && groups && this
            },
            (Value::Object(a), Value::Object(b)) => a.same_bits(b),
            _ => false,
        }
    }
}

/// The name of a value's type.
pub open spec fn kind_text(v: Val) -> Seq<char> {
    match v {
        Val::Undef => "undef"@,
        Val::Bool(_) => "bool"@,
        Val::Num(_) => "number"@,
        Val::Str(_) => "string"@,
        Val::NumList(_) => "list"@,
        Val::List(_) => "list"@,
        Val::Range { .. } => "range"@,
        Val::Function { .. } => "function"@,
        Val::Object(_) => "object"@,
    }
}

/// Whether two vectors of numbers are equal.
fn nums_equal(a: &Rc<Vec<u64>>, b: &Rc<Vec<u64>>) -> (r: bool)
    ensures
        r == (a@.len() == b@.len() && forall|i: int|
            0 <= i < a@.len() ==> num_eq(#[trigger] a@[i], b@[i])),
{
    if a.len() != b.len() {
        return false;
    }
    let mut i: usize = 0;
    while i < a.len()
        invariant
            i <= a@.len(),
            a@.len() == b@.len(),
            forall|k: int| 0 <= k < i ==> num_eq(#[trigger] a@[k], b@[k]),
        decreases a@.len() - i,
    {
        if !equal(a[i], b[i]) {
            assert(!num_eq(a@[i as int], b@[i as int]));
            return false;
        }
        i += 1;
    }
    true
}

/// Whether two general lists are equal.
fn lists_equal<F: Fn(FloatOp, u64, u64) -> u64>(a: &ValueList, b: &ValueList, fpu: &F) -> (r: bool)
    requires
        unit_ok(*fpu),
    ensures
        r == (vals(a.0@).len() == vals(b.0@).len() && forall|i: int|
            0 <= i < vals(a.0@).len() ==> val_eq(
                #[trigger] vals(a.0@)[i],
                vals(b.0@)[i],
                unit(*fpu),
            )),
    decreases a,
{
    let ghost va = vals(a.0@);
    let ghost vb = vals(b.0@);
    if a.0.len() != b.0.len() {
        return false;
    }
    let mut i: usize = 0;
    while i < a.0.len()
        invariant
            unit_ok(*fpu),
            i <= a.0@.len(),
            a.0@.len() == b.0@.len(),
            va == vals(a.0@),
            vb == vals(b.0@),
            forall|k: int| 0 <= k < i ==> val_eq(#[trigger] va[k], vb[k], unit(*fpu)),
        decreases a.0@.len() - i,
    {
        if !a.0[i].eq(&b.0[i], fpu) {
            assert(!val_eq(va[i as int], vb[i as int], unit(*fpu)));
            return false;
        }
        i += 1;
    }
    true
}

/// Whether a vector of numbers and a general list hold the same numbers.
fn nums_match(n: &Rc<Vec<u64>>, l: &ValueList) -> (r: bool)
    ensures
        r == (n@.len() == l.0@.len() && forall|i: int|
            0 <= i < n@.len() ==> ((#[trigger] vals(l.0@)[i]) matches Val::Num(x) && num_eq(n@[i], x))),
{
    if n.len() != l.0.len() {
        return false;
    }
    let ghost vl = vals(l.0@);
    let mut i: usize = 0;
    while i < n.len()
        invariant
            i <= n@.len(),
            n@.len() == l.0@.len(),
            vl == vals(l.0@),
            forall|k: int|
                0 <= k < i ==> ((#[trigger] vl[k]) matches Val::Num(x) && num_eq(n@[k], x)),
        decreases n@.len() - i,
    {
        let ok: bool = match &l.0[i] {
            Value::Num(x) => equal(n[i], *x),
            _ => false,
        };
        if !ok {
            assert(!(vl[i as int] matches Val::Num(x) && num_eq(n@[i as int], x)));
            return false;
        }
        i += 1;
    }
    true
}


/// The vector made of the given elements: a vector of numbers where all are numbers.
pub open spec fn vector_of(items: Seq<Val>) -> Val {
    if forall|i: int| 0 <= i < items.len() ==> (#[trigger] items[i]) is Num {
        Val::NumList(Seq::new(items.len(), |i: int| items[i]->Num_0))
    } else {
        Val::List(items)
    }
}

/// Builds the vector made of the given elements.
pub fn build_vector(items: Vec<Value>) -> (r: Value)
    ensures
        r@ == vector_of(vals(items@)),
{
    let mut nums: Vec<u64> = Vec::new();
    let mut i: usize = 0;
    let ghost vs = vals(items@);
    while i < items.len()
        invariant
            i <= items@.len(),
            vs == vals(items@),
            nums@.len() == i,
            forall|k: int| 0 <= k < i ==> (#[trigger] vs[k]) == Val::Num(nums@[k]),
        decreases items@.len() - i,
    {
        match &items[i] {
            Value::Num(n) => {
                nums.push(*n);
                assert(vs[i as int] == Val::Num(*n));
            },
            _ => {
                assert(!(vs[i as int] is Num));
                return Value::list(items);
            },
        }
        i += 1;
    }
    assert(nums@ =~= vector_of(vs)->NumList_0);
    Value::num_list(nums)
}

/// The elements of a vector value, in either form.
pub open spec fn elements(v: Val) -> Option<Seq<Val>> {
    match v {
        Val::NumList(xs) => Some(Seq::new(xs.len(), |i: int| Val::Num(xs[i]))),
        Val::List(xs) => Some(xs),
        _ => None,
    }
}

/// A vector built from a value's elements has those elements again, whatever its form.
pub proof fn law_vector_keeps_elements(items: Seq<Val>)
    ensures
        elements(vector_of(items)) == Some(items),
{
    assert(elements(vector_of(items))->Some_0 =~= items);
}

/// The two forms of vector are one type: a vector of numbers equals the general list of the same
/// numbers, both ways round, unless a NaN is among them.
pub proof fn law_list_forms_are_equal(xs: Seq<u64>, f: spec_fn(FloatOp, u64, u64) -> u64)
    requires
        forall|i: int| 0 <= i < xs.len() ==> !is_nan(#[trigger] xs[i]),
    ensures
        val_eq(Val::NumList(xs), Val::List(elements(Val::NumList(xs))->Some_0), f),
        val_eq(Val::List(elements(Val::NumList(xs))->Some_0), Val::NumList(xs), f),
        val_eq(Val::NumList(xs), Val::NumList(xs), f),
{
}

/// The number of elements of a vector value.
pub fn list_len(v: &Value) -> (r: Option<usize>)
    ensures
        match elements(v@) {
            Some(xs) => r matches Some(n) && n == xs.len(),
            None => r is None,
        },
{
    match v {
        Value::NumList(xs) => Some(xs.len()),
        Value::List(xs) => {
            proof {
                lemma_list_view(*xs);
            }
            Some(xs.0.len())
        },
        _ => None,
    }
}

/// An element of a vector value; `undef` beyond the end, or where the value is no vector.
pub fn list_get(v: &Value, i: usize) -> (r: Value)
    ensures
        r@ == match elements(v@) {
            Some(xs) => if i < xs.len() {
                xs[i as int]
            } else {
                Val::Undef
            },
            None => Val::Undef,
        },
{
    match v {
        Value::NumList(xs) => if i < xs.len() {
            Value::Num(xs[i])
        } else {
            Value::Undef
        },
        Value::List(xs) => {
            proof {
                lemma_list_view(*xs);
            }
            if i < xs.0.len() {
                xs.0[i].clone()
            } else {
                Value::Undef
            }
        },
        _ => Value::Undef,
    }
}

/// How deep a value nests vectors.
pub open spec fn depth(v: Val) -> nat
    decreases v, 0nat,
{
    match v {
        Val::List(xs) => 1 + depth_upto(xs, xs.len()),
        Val::NumList(_) => 1,
        _ => 0,
    }
}

/// The greatest depth among the first `n` of some values.
pub open spec fn depth_upto(xs: Seq<Val>, n: nat) -> nat
    decreases xs, n,
{
    if n == 0 || n > xs.len() {
        0
    } else {
        let here = depth(xs[n - 1]);
        let before = depth_upto(xs, (n - 1) as nat);
        if here > before {
            here
        } else {
            before
        }
    }
}

pub proof fn lemma_depth_upto(xs: Seq<Val>, n: nat, i: int)
    requires
        0 <= i < n <= xs.len(),
    ensures
        depth(xs[i]) <= depth_upto(xs, n),
    decreases n,
{
    if i < n - 1 {
        lemma_depth_upto(xs, (n - 1) as nat, i);
    }
}

/// An element nests less deep than its vector.
pub proof fn lemma_depth_element(v: Val, i: int)
    requires
        elements(v) matches Some(xs) && 0 <= i < xs.len(),
    ensures
        depth(elements(v)->Some_0[i]) < depth(v),
{
    match v {
        Val::List(xs) => {
            lemma_depth_upto(xs, xs.len(), i);
        },
        _ => {},
    }
}

/// A range has values exactly where it has a step that is a number other than zero, finite bounds, and its end
/// does not lie against its step; and then it has one more than the whole steps that fit, as the float unit
/// divides, with the next larger number taken for their quotient.
pub proof fn law_range_counts(start: u64, step: u64, end: u64, f: spec_fn(FloatOp, u64, u64) -> u64)
    ensures
        ({
            let n = range_count(start, step, end, f);
            let against = num_lt(step, 0) && num_lt(start, end) || num_lt(0, step) && num_lt(end, start);
            let none = is_zero(step) || is_nan(step) || !is_finite(start) || !is_finite(end) || against;
            let steps = to_unsigned(
                next_up_of(f(FloatOp::Div, f(FloatOp::Sub, end, start), step)),
                u64::MAX as int,
            );
            &&& n == 0 <==> none
            &&& !none && steps < u64::MAX ==> n == steps + 1
        }),
        range_nums(start, step, end, f).len() <= 10_000_000,
        range_nums(start, step, end, f).len() <= range_count(start, step, end, f),
{
    law_range_count_in_range(start, step, end, f);
    let quotient = f(FloatOp::Div, f(FloatOp::Sub, end, start), step);
    law_unsigned_in_range(next_up_of(quotient), u64::MAX as int);
}

/// The next larger number is larger, and nothing lies between.
pub proof fn law_next_up(b: u64, c: u64)
    requires
        is_finite(b),
    ensures
        num_lt(b, next_up_of(b)),
        num_lt(b, c) ==> !num_lt(c, next_up_of(b)),
{
}

/// Ranges are ordered as what they iterate: one without values before one with some, then by their starts, then
/// by their steps where both take one, then the shorter one first; and turning them around turns the order.
pub proof fn law_ranges_are_ordered(
    a: (u64, u64, u64),
    b: (u64, u64, u64),
    f: spec_fn(FloatOp, u64, u64) -> u64,
)
    ensures
        ({
            let n = range_count(a.0, a.1, a.2, f);
            let m = range_count(b.0, b.1, b.2, f);
            let r = range_rank_of(a, b, f);
            &&& n == 0 && m > 0 ==> r == Some(Rank::Less)
            &&& n > 0 && m > 0 && num_lt(a.0, b.0) ==> r == Some(Rank::Less)
            &&& n >= 2 && m >= 2 && num_eq(a.0, b.0) && num_lt(a.1, b.1) ==> r == Some(Rank::Less)
            &&& num_eq(a.0, b.0) && num_eq(a.1, b.1) && 0 < n < m ==> r == Some(Rank::Less)
            &&& num_eq(a.0, b.0) && num_eq(a.1, b.1) && n == m ==> r == Some(Rank::Equal)
            &&& r == Some(Rank::Less) <==> range_rank_of(b, a, f) == Some(Rank::Greater)
            &&& r == Some(Rank::Equal) <==> range_rank_of(b, a, f) == Some(Rank::Equal)
        }),
{
    law_range_count_in_range(a.0, a.1, a.2, f);
    law_range_count_in_range(b.0, b.1, b.2, f);
}

/// The types have the names that the language gives them.
pub proof fn law_kind_names(v: Val)
    ensures
        v is Undef ==> kind_text(v) == "undef"@,
        v is Bool ==> kind_text(v) == "bool"@,
        v is Num ==> kind_text(v) == "number"@,
        v is Str ==> kind_text(v) == "string"@,
        elements(v) is Some ==> kind_text(v) == "list"@,
        v is Range ==> kind_text(v) == "range"@,
        v is Function ==> kind_text(v) == "function"@,
        v is Object ==> kind_text(v) == "object"@,
{
}

}

//! What the elements of comprehensions, loops and vectors contribute.

use vstd::prelude::*;

use crate::ast::{Expr, ExprKind, Name};
use crate::chars::{cat3, char_text, chars_of, dec, decimal};
use crate::num::{unit, unit_ok, FloatOp};
use crate::object::members_of;
use crate::value::{
    law_range_count_in_range, lemma_list_view, range_count, range_len, range_numbers, range_nums, vals, Val, Value, RANGE_MAX,
    RANGE_TOO_MANY,
};

verus! {

/// Whether an expression contributes several elements to the vector it stands in. A `let` does
/// where its body does.
pub open spec fn generates(e: Expr) -> bool
    decreases e,
{
    match e.kind {
        ExprKind::LcFor { .. } => true,
        ExprKind::LcForC { .. } => true,
        ExprKind::LcEach(_) => true,
        ExprKind::LcIf { .. } => true,
        ExprKind::Let { body, .. } => generates(*body),
        _ => false,
    }
}

/// Whether an expression contributes several elements to the vector it stands in.
pub fn is_comprehension(e: &Expr) -> (r: bool)
    ensures
        r == generates(*e),
{
    let mut cur: &Expr = e;
    loop
        invariant
            generates(*cur) == generates(*e),
        decreases *cur,
    {
        match &cur.kind {
            ExprKind::LcFor { .. } => {
                return true;
            },
            ExprKind::LcForC { .. } => {
                return true;
            },
            ExprKind::LcEach(_) => {
                return true;
            },
            ExprKind::LcIf { .. } => {
                return true;
            },
            ExprKind::Let { body, .. } => {
                cur = body;
            },
            _ => {
                return false;
            },
        }
    }
}

/// A vector of numbers as values.
pub open spec fn num_vals(xs: Seq<u64>) -> Seq<Val> {
    Seq::new(xs.len(), |i: int| Val::Num(xs[i]))
}

/// The characters of a text as values.
pub open spec fn char_vals(s: Seq<char>) -> Seq<Val> {
    Seq::new(s.len(), |i: int| Val::Str(seq![s[i]]))
}

/// The names of an object's members as values.
pub open spec fn key_vals(ms: Seq<(Seq<char>, Val)>) -> Seq<Val> {
    Seq::new(ms.len(), |i: int| Val::Str(ms[i].0))
}

/// The values that a value yields where it is iterated: elements, characters, names of members;
/// a range that is not too long its values; anything else itself.
pub open spec fn items_of(v: Val, f: spec_fn(FloatOp, u64, u64) -> u64) -> Seq<Val> {
    match v {
        Val::NumList(xs) => num_vals(xs),
        Val::List(xs) => xs,
        Val::Range { start, step, end } => if range_count(start, step, end, f) >= RANGE_TOO_MANY {
            Seq::empty()
        } else {
            num_vals(range_nums(start, step, end, f))
        },
        Val::Str(s) => char_vals(s),
        Val::Object(ms) => key_vals(ms),
        other => seq![other],
    }
}

/// The warning where a range is too long to be iterated.
pub open spec fn items_warning(v: Val, f: spec_fn(FloatOp, u64, u64) -> u64) -> Option<Seq<char>> {
    match v {
        Val::Range { start, step, end } => if range_count(start, step, end, f) >= RANGE_TOO_MANY {
            Some(
                "Bad range parameter in for statement: too many elements ("@ + decimal(
                    range_count(start, step, end, f) as nat,
                ) + ")"@,
            )
        } else {
            None
        },
        _ => None,
    }
}

/// The values that a statement loop runs over: as [`items_of`], but `undef` yields nothing.
pub open spec fn loop_items(v: Val, f: spec_fn(FloatOp, u64, u64) -> u64) -> Seq<Val> {
    if v is Undef {
        Seq::empty()
    } else {
        items_of(v, f)
    }
}

/// The number of values that iterating a value yields, for the budget.
pub open spec fn item_count(v: Val, f: spec_fn(FloatOp, u64, u64) -> u64) -> int {
    match v {
        Val::NumList(xs) => xs.len() as int,
        Val::List(xs) => xs.len() as int,
        Val::Range { start, step, end } => {
            let n = range_count(start, step, end, f);
            if n >= RANGE_TOO_MANY {
                0
            } else if n > RANGE_MAX {
                RANGE_MAX as int
            } else {
                n
            }
        },
        Val::Str(s) => s.len() as int,
        Val::Object(ms) => ms.len() as int,
        _ => 1,
    }
}

/// The budget is charged for exactly the values that come.
pub proof fn law_count_is_what_comes(v: Val, f: spec_fn(FloatOp, u64, u64) -> u64)
    ensures
        item_count(v, f) == items_of(v, f).len(),
{
    if let Val::Range { start, step, end } = v {
        law_range_count_in_range(start, step, end, f);
    }
}

/// Iterating a value never yields more than the cap on ranges, unless that many elements are
/// there already.
pub proof fn law_ranges_are_capped(start: u64, step: u64, end: u64, f: spec_fn(FloatOp, u64, u64) -> u64)
    ensures
        items_of(Val::Range { start, step, end }, f).len() <= RANGE_MAX,
{
    law_range_count_in_range(start, step, end, f);
}

fn nums_to_values(xs: &Vec<u64>) -> (r: Vec<Value>)
    ensures
        vals(r@) == num_vals(xs@),
{
    let mut out: Vec<Value> = Vec::new();
    let mut i: usize = 0;
    while i < xs.len()
        invariant
            i <= xs@.len(),
            out@.len() == i,
            forall|k: int| 0 <= k < i ==> (#[trigger] out@[k]) == Value::Num(xs@[k]),
        decreases xs@.len() - i,
    {
        out.push(Value::Num(xs[i]));
        i += 1;
    }
    assert(vals(out@) =~= num_vals(xs@));
    out
}

/// A copy of some values.
pub fn copy_values(xs: &Vec<Value>) -> (r: Vec<Value>)
    ensures
        r@ == xs@,
{
    let mut out: Vec<Value> = Vec::new();
    let mut i: usize = 0;
    while i < xs.len()
        invariant
            i <= xs@.len(),
            out@ == xs@.take(i as int),
        decreases xs@.len() - i,
    {
        out.push(xs[i].clone());
        assert(out@ =~= xs@.take(i as int + 1));
        i += 1;
    }
    assert(xs@.take(xs@.len() as int) =~= xs@);
    out
}

fn chars_to_values(s: &str) -> (r: Vec<Value>)
    ensures
        vals(r@) == char_vals(s@),
{
    let cs: Vec<char> = chars_of(s);
    let mut out: Vec<Value> = Vec::new();
    let mut i: usize = 0;
    while i < cs.len()
        invariant
            i <= cs@.len(),
            out@.len() == i,
            forall|k: int| 0 <= k < i ==> (#[trigger] out@[k])@ == Val::Str(seq![cs@[k]]),
        decreases cs@.len() - i,
    {
        out.push(Value::string(char_text(cs[i]).as_str()));
        i += 1;
    }
    assert(vals(out@) =~= char_vals(s@));
    out
}

fn keys_to_values(o: &crate::object::ObjectMap) -> (r: Vec<Value>)
    ensures
        vals(r@) == key_vals(members_of(*o)),
{
    let ks: Vec<Name> = o.keys();
    let mut out: Vec<Value> = Vec::new();
    let mut i: usize = 0;
    while i < ks.len()
        invariant
            i <= ks@.len(),
            out@.len() == i,
            forall|k: int| 0 <= k < i ==> (#[trigger] out@[k])@ == Val::Str(ks@[k]@),
        decreases ks@.len() - i,
    {
        out.push(Value::Str(ks[i].clone()));
        i += 1;
    }
    assert(vals(out@) =~= key_vals(members_of(*o)));
    out
}

/// The values that a value yields where it is iterated, and the warning where it is refused.
pub fn iter_values<F: Fn(FloatOp, u64, u64) -> u64>(v: &Value, fpu: &F) -> (r: (
    Vec<Value>,
    Option<String>,
))
    requires
        unit_ok(*fpu),
    ensures
        vals(r.0@) == items_of(v@, unit(*fpu)),
        crate::ops::slot_text(r.1) == items_warning(v@, unit(*fpu)),
{
    match v {
        Value::NumList(xs) => (nums_to_values(xs), None),
        Value::List(xs) => {
            proof {
                lemma_list_view(*xs);
            }
            (copy_values(&xs.0), None)
        },
        Value::Range { start, step, end } => {
            let n: u64 = range_len(*start, *step, *end, fpu);
            if n >= RANGE_TOO_MANY {
                let none: Vec<Value> = Vec::new();
                assert(vals(none@) =~= Seq::<Val>::empty());
                (
                    none,
                    Some(
                        cat3(
                            "Bad range parameter in for statement: too many elements (",
                            dec(n).as_str(),
                            ")",
                        ),
                    ),
                )
            } else {
                (nums_to_values(&range_numbers(*start, *step, *end, fpu)), None)
            }
        },
        Value::Str(s) => (chars_to_values(s.as_str()), None),
        Value::Object(o) => (keys_to_values(o), None),
        other => {
            let mut one: Vec<Value> = Vec::new();
            one.push(other.clone());
            assert(vals(one@) =~= seq![v@]);
            (one, None)
        },
    }
}

/// The values that a statement loop runs over, and the warning where a range is refused.
pub fn iterate_values<F: Fn(FloatOp, u64, u64) -> u64>(v: &Value, fpu: &F) -> (r: (
    Vec<Value>,
    Option<String>,
))
    requires
        unit_ok(*fpu),
    ensures
        vals(r.0@) == loop_items(v@, unit(*fpu)),
        crate::ops::slot_text(r.1) == items_warning(v@, unit(*fpu)),
{
    match v {
        Value::Undef => {
            let none: Vec<Value> = Vec::new();
            assert(vals(none@) =~= Seq::<Val>::empty());
            (none, None)
        },
        other => iter_values(other, fpu),
    }
}

/// The values of an iterable with a range only capped, never refused, and an object as itself.
pub open spec fn raw_items(v: Val, f: spec_fn(FloatOp, u64, u64) -> u64) -> Seq<Val> {
    match v {
        Val::Range { start, step, end } => num_vals(range_nums(start, step, end, f)),
        Val::Object(_) => seq![v],
        other => items_of(other, f),
    }
}

/// The values of an iterable with a range only capped, never refused, and an object as itself.
pub fn iter_values_raw<F: Fn(FloatOp, u64, u64) -> u64>(v: &Value, fpu: &F) -> (r: Vec<Value>)
    requires
        unit_ok(*fpu),
    ensures
        vals(r@) == raw_items(v@, unit(*fpu)),
{
    match v {
        Value::Range { start, step, end } => nums_to_values(
            &range_numbers(*start, *step, *end, fpu),
        ),
        Value::Object(_) => {
            let mut one: Vec<Value> = Vec::new();
            one.push(v.clone());
            assert(vals(one@) =~= seq![v@]);
            one
        },
        other => iter_values(other, fpu).0,
    }
}

/// The number of values that iterating a value yields.
pub fn count_items<F: Fn(FloatOp, u64, u64) -> u64>(v: &Value, fpu: &F) -> (r: u64)
    requires
        unit_ok(*fpu),
    ensures
        r == item_count(v@, unit(*fpu)),
{
    match v {
        Value::NumList(xs) => xs.len() as u64,
        Value::List(xs) => {
            proof {
                lemma_list_view(*xs);
            }
            xs.0.len() as u64
        },
        Value::Range { start, step, end } => {
            let n: u64 = range_len(*start, *step, *end, fpu);
            if n >= RANGE_TOO_MANY {
                0
            } else if n > RANGE_MAX {
                RANGE_MAX
            } else {
                n
            }
        },
        Value::Str(s) => s.as_str().unicode_len() as u64,
        Value::Object(o) => o.len() as u64,
        _ => 1,
    }
}

/// What a value contributes where it is spliced into a vector: a vector its elements, anything
/// else itself.
pub open spec fn spliced(v: Val) -> Seq<Val> {
    match v {
        Val::NumList(xs) => num_vals(xs),
        Val::List(xs) => xs,
        other => seq![other],
    }
}

/// Splices a value into a growing vector.
pub fn splice_into(v: Value, out: &mut Vec<Value>)
    ensures
        vals(final(out)@) == vals(old(out)@) + spliced(v@),
{
    match v {
        Value::NumList(xs) => {
            let mut more: Vec<Value> = nums_to_values(&xs);
            append_values(out, &mut more);
        },
        Value::List(xs) => {
            proof {
                lemma_list_view(xs);
            }
            let mut more: Vec<Value> = copy_values(&xs.0);
            append_values(out, &mut more);
        },
        other => {
            out.push(other);
            assert(vals(out@) =~= vals(old(out)@) + seq![other@]);
        },
    }
}

/// Moves all values of one vector to the end of another.
pub fn append_values(out: &mut Vec<Value>, more: &mut Vec<Value>)
    ensures
        vals(final(out)@) == vals(old(out)@) + vals(old(more)@),
        final(out)@ == old(out)@ + old(more)@,
{
    out.append(more);
    assert(vals(out@) =~= vals(old(out)@) + vals(old(more)@));
}

/// The range with the given bounds; `undef` unless all three are numbers.
pub open spec fn range_of(start: Val, step: Val, end: Val) -> Val {
    match (start, step, end) {
        (Val::Num(a), Val::Num(b), Val::Num(c)) => Val::Range { start: a, step: b, end: c },
        _ => Val::Undef,
    }
}

/// Builds a range.
pub fn build_range(start: &Value, step: &Value, end: &Value) -> (r: Value)
    ensures
        r@ == range_of(start@, step@, end@),
{
    match (start, step, end) {
        (Value::Num(a), Value::Num(b), Value::Num(c)) => Value::Range {
            start: *a,
            step: *b,
            end: *c,
        },
        _ => Value::Undef,
    }
}

/// A function value that has no name yet takes the one it is bound to.
pub open spec fn named_value(v: Val, name: Seq<char>) -> Val {
    match v {
        Val::Function { closure_id, env, self_name, repr, group, bound_this } => Val::Function {
            closure_id,
            env,
            self_name: if self_name is None {
                Some(name)
            } else {
                self_name
            },
            repr,
            group,
            bound_this,
        },
        other => other,
    }
}

/// Gives a function value without a name the one it is bound to.
pub fn name_closure(v: Value, name: &Name) -> (r: Value)
    ensures
        r@ == named_value(v@, name@),
{
    match v {
        Value::Function { closure_id, env, self_name: None, repr, group, bound_this } =>
            Value::Function {
                closure_id,
                env,
                self_name: Some(name.clone()),
                repr,
                group,
                bound_this,
            },
        other => other,
    }
}

/// The name a function was first bound to stays, however often it is bound again.
pub proof fn law_first_name_stays(v: Val, a: Seq<char>, b: Seq<char>)
    ensures
        named_value(named_value(v, a), b) == named_value(v, a),
{
}

/// What a loop runs over: the elements of a vector in either form, the characters of a text as texts, the names of
/// an object, and of a range that is not too long as many numbers as it has, up to the cap, from its start on;
/// anything else once as itself. A statement's loop runs over `undef` not at all.
pub proof fn law_items(v: Val, i: int, f: spec_fn(FloatOp, u64, u64) -> u64)
    ensures
        crate::value::elements(v) matches Some(xs) ==> items_of(v, f) == xs && spliced(v) == xs,
        v matches Val::Str(s) ==> items_of(v, f).len() == s.len() && (0 <= i < s.len() ==> items_of(v, f)[i]
            == Val::Str(seq![s[i]])),
        v matches Val::Object(ms) ==> items_of(v, f).len() == ms.len() && (0 <= i < ms.len() ==> items_of(v, f)[i]
            == Val::Str(ms[i].0)),
        v matches Val::Range { start, step, end } ==> {
            let n = range_count(start, step, end, f);
            &&& n >= 4_294_967_295 ==> items_of(v, f).len() == 0 && items_warning(v, f) is Some
            &&& n < 4_294_967_295 ==> items_warning(v, f) is None && items_of(v, f).len() == if n <= 10_000_000 {
                n
            } else {
                10_000_000
            }
            &&& 0 < items_of(v, f).len() ==> items_of(v, f)[0] == Val::Num(start)
            &&& 0 < i < items_of(v, f).len() ==> items_of(v, f)[i] == Val::Num(
                f(FloatOp::Add, start, f(FloatOp::Mul, f(FloatOp::FromInt, i as u64, 0), step)),
            )
        },
        v is Undef || v is Bool || v is Num || v is Function ==> items_of(v, f) == seq![v],
        crate::value::elements(v) is None ==> spliced(v) == seq![v],
        v is Undef ==> loop_items(v, f).len() == 0,
        !(v is Undef) ==> loop_items(v, f) == items_of(v, f),
{
    if let Some(xs) = crate::value::elements(v) {
        assert(items_of(v, f) =~= xs);
        assert(spliced(v) =~= xs);
    }
    if let Val::Range { start, step, end } = v {
        law_range_count_in_range(start, step, end, f);
    }
}

/// A range is made of three numbers, in the order start, step, end; of anything else none is.
pub proof fn law_ranges(a: Val, b: Val, c: Val)
    ensures
        a is Num && b is Num && c is Num ==> (range_of(a, b, c) matches Val::Range { start, step, end } && Val::Num(start)
            == a && Val::Num(step) == b && Val::Num(end) == c),
        !(a is Num && b is Num && c is Num) ==> range_of(a, b, c) is Undef,
{
}

/// Loops, conditions without a value and `each` contribute several elements to a vector, and so does a `let` around one of
/// them; whatever gives one value contributes that one.
pub proof fn law_generators(e: Expr)
    ensures
        e.kind is LcFor || e.kind is LcForC || e.kind is LcEach || e.kind is LcIf ==> generates(e),
        e.kind matches ExprKind::Let { body, .. } ==> (generates(e) <==> generates(*body)),
        e.kind is Num || e.kind is Bool || e.kind is Undef || e.kind is Str || e.kind is Ident || e.kind is Unary
            || e.kind is Binary || e.kind is Ternary || e.kind is Vector || e.kind is Call || e.kind is Index
            || e.kind is Member || e.kind is Range || e.kind is FunctionLiteral || e.kind is Echo || e.kind is Assert
            ==> !generates(e),
{
}

}

//! The arguments of the builtin shapes: what each shape is made with.

use std::rc::Rc;

use vstd::prelude::*;

use crate::ast::{is_special, opt_text, Arg, ModuleInstantiation, Name};
use crate::bind::lemma_eval_grows;
use crate::capture::after_read;
use crate::chars::{cat3, cat5, dec, decimal, same};
use crate::eval::Ctx;
use crate::geo::Mesh;
use crate::geom::{Vec2, Vec3};
use crate::host::{Answer, Reply};
use crate::machine::{named_vals, run_ok, Job, State, Task};
use crate::message::{lines, Error, Fault, Line, Message};
use crate::modules::{passed_one, BuiltinArgs, Passed};
use crate::native::Given;
use crate::num::{
    ask, finite, is_finite, is_nan, is_zero, less, nan, negative, num_lt, to_u32, to_unsigned, unit,
    unit_ok, zero, FloatOp, INF, ONE, SIGN,
};
use crate::run::{eval_in, host, host_ok};
use crate::scope::{meaning, number_of, scope_ok, Scope};
use crate::step::set_variable;
use crate::value::{lemma_list_view, vals, Val, Value, ValueList};

verus! {

/// Two.
pub const TWO: u64 = 0x4000_0000_0000_0000;

/// Ten.
pub const TEN: u64 = 0x4024_0000_0000_0000;

/// The arguments of a module call from the `i`-th on, evaluated in the scope of the call and sorted
/// in.
pub open spec fn instance_args(
    s: State,
    args: Seq<Arg>,
    i: int,
    p: Passed,
    scope: Scope,
    f: spec_fn(FloatOp, u64, u64) -> u64,
    h: spec_fn(Job, u64, Seq<Seq<char>>) -> Answer,
    n: nat,
) -> (State, Result<Passed, Fault>)
    decreases args.len() - i,
{
    if i >= args.len() {
        (s, Ok(p))
    } else {
        let (t, r) = eval_in(s, args[i].value, scope, f, h, n);
        match r {
            Err(e) => (t, Err(e)),
            Ok(v) => {
                let (u, q) = passed_one(t, p, Given { name: opt_text(args[i].name), value: v });
                instance_args(u, args, i + 1, q, scope, f, h, n)
            },
        }
    }
}

impl<'a> Ctx<'a> {
    /// Evaluates the arguments of a module call: positional values, named values, and a scope below
    /// that of the call with the `$`-arguments.
    pub fn module_args<F: Fn(FloatOp, u64, u64) -> u64, H: Fn(&Task<'a>, u64, &Vec<Name>) -> Reply>(
        &mut self,
        mi: &'a ModuleInstantiation,
        scope: Scope,
        fpu: &F,
        h: &H,
        fuel: u64,
    ) -> (r: Result<BuiltinArgs, Error>)
        requires
            run_ok(old(self)@),
            unit_ok(*fpu),
            host_ok(*h),
            scope_ok(old(self)@.store, scope),
        ensures
            ({
                let t = old(self)@.child(scope);
                let start = Passed {
                    positional: Seq::empty(),
                    named: Seq::empty(),
                    scope: t.here(),
                    combines: false,
                };
                let (u, q) = instance_args(
                    t,
                    mi.args@,
                    0,
                    start,
                    scope,
                    unit(*fpu),
                    host(*h),
                    fuel as nat,
                );
                &&& final(self)@ == u
                &&& match r {
                    Ok(a) => q == Ok::<Passed, Fault>(a@),
                    Err(e) => q == Err::<Passed, Fault>(e@),
                }
            }),
            r matches Ok(a) ==> scope_ok(final(self)@.store, a.scope),
            run_ok(final(self)@),
    {
        let args: &'a Vec<Arg> = &mi.args;
        let fresh: Scope = self.child(scope);
        let ghost t = self@;
        let ghost start = Passed {
            positional: Seq::empty(),
            named: Seq::empty(),
            scope: t.here(),
            combines: false,
        };
        let mut out = BuiltinArgs {
            positional: Vec::new(),
            named: Vec::new(),
            scope: fresh,
            combines: false,
        };
        assert(vals(out.positional@) =~= Seq::<Val>::empty());
        assert(named_vals(out.named@) =~= Seq::<(Seq<char>, Val)>::empty());
        let mut i: usize = 0;
        while i < args.len()
            invariant
                i <= args@.len(),
                *args == mi.args,
                t == old(self)@.child(scope),
                start == (Passed {
                    positional: Seq::empty(),
                    named: Seq::empty(),
                    scope: t.here(),
                    combines: false,
                }),
                run_ok(self@),
                unit_ok(*fpu),
                host_ok(*h),
                scope_ok(self@.store, scope),
                scope_ok(self@.store, out.scope),
                instance_args(
                    self@,
                    args@,
                    i as int,
                    out@,
                    scope,
                    unit(*fpu),
                    host(*h),
                    fuel as nat,
                ) == instance_args(
                    t,
                    args@,
                    0,
                    start,
                    scope,
                    unit(*fpu),
                    host(*h),
                    fuel as nat,
                ),
            decreases args@.len() - i,
        {
            proof {
                lemma_eval_grows(
                    self@,
                    args@[i as int].value,
                    scope,
                    unit(*fpu),
                    host(*h),
                    fuel as nat,
                );
            }
            let v: Value = match self.eval_with_ctx(&args[i].value, scope, fpu, h, fuel) {
                Ok(v) => v,
                Err(e) => {
                    return Err(e);
                },
            };
            let ghost before = out@;
            let ghost shown = v@;
            match &args[i].name {
                None => {
                    out.positional.push(v);
                    assert(vals(out.positional@) =~= before.positional.push(shown));
                },
                Some(name) => {
                    if is_special(name.as_str()) {
                        out.scope = self.bind_in(out.scope, name.clone(), v);
                    } else {
                        set_variable(&mut out.named, name.clone(), v);
                    }
                },
            }
            i += 1;
        }
        Ok(out)
    }
}

/// A named value, from the `i`-th on.
pub open spec fn named_from(vs: Seq<(Seq<char>, Val)>, key: Seq<char>, i: int) -> Option<Val>
    decreases vs.len() - i,
{
    if i >= vs.len() {
        None
    } else if vs[i].0 == key {
        Some(vs[i].1)
    } else {
        named_from(vs, key, i + 1)
    }
}

/// An argument of a shape: by name, else by its position where it has one.
pub open spec fn arg_of(p: Passed, key: Seq<char>, at: Option<int>) -> Option<Val> {
    match named_from(p.named, key, 0) {
        Some(v) => Some(v),
        None => match at {
            Some(i) => if i < p.positional.len() {
                Some(p.positional[i])
            } else {
                None
            },
            None => None,
        },
    }
}

/// A position, mathematically.
pub open spec fn position(at: Option<usize>) -> Option<int> {
    match at {
        Some(i) => Some(i as int),
        None => None,
    }
}

fn find_arg<'v>(args: &'v BuiltinArgs, key: &str, at: Option<usize>) -> (r: Option<&'v Value>)
    ensures
        match r {
            Some(v) => arg_of(args@, key@, position(at)) == Some(v@),
            None => arg_of(args@, key@, position(at)) is None,
        },
{
    let ghost all = named_vals(args.named@);
    let mut i: usize = 0;
    while i < args.named.len()
        invariant
            i <= args.named@.len(),
            all == named_vals(args.named@),
            named_from(all, key@, 0) == named_from(all, key@, i as int),
        decreases args.named@.len() - i,
    {
        assert(all[i as int] == (args.named@[i as int].0@, args.named@[i as int].1@));
        if same(args.named[i].0.as_str(), key) {
            return Some(&args.named[i].1);
        }
        i += 1;
    }
    match at {
        Some(k) => {
            if k < args.positional.len() {
                assert(args@.positional[k as int] == args.positional@[k as int]@);
                Some(&args.positional[k])
            } else {
                None
            }
        },
        None => None,
    }
}

/// A number, where the value is one.
pub open spec fn as_number(v: Option<Val>) -> Option<u64> {
    match v {
        Some(Val::Num(n)) => Some(n),
        _ => None,
    }
}

/// A text, where the value is one.
pub open spec fn as_text(v: Option<Val>) -> Option<Seq<char>> {
    match v {
        Some(Val::Str(s)) => Some(s),
        _ => None,
    }
}

fn get_num(args: &BuiltinArgs, key: &str, at: Option<usize>) -> (r: Option<u64>)
    ensures
        r == as_number(arg_of(args@, key@, position(at))),
{
    match find_arg(args, key, at) {
        Some(Value::Num(n)) => Some(*n),
        _ => None,
    }
}

fn get_string(args: &BuiltinArgs, key: &str, at: Option<usize>) -> (r: Option<Name>)
    ensures
        opt_text(r) == as_text(arg_of(args@, key@, position(at))),
{
    match find_arg(args, key, at) {
        Some(Value::Str(s)) => Some(s.clone()),
        _ => None,
    }
}

/// Whether an argument is exactly `true`.
pub open spec fn is_set(v: Option<Val>) -> bool {
    v == Some(Val::Bool(true))
}

fn is_true(args: &BuiltinArgs, key: &str, at: Option<usize>) -> (r: bool)
    ensures
        r == is_set(arg_of(args@, key@, position(at))),
{
    match find_arg(args, key, at) {
        Some(Value::Bool(b)) => *b,
        _ => false,
    }
}

/// A radius: half the diameter where that is a number, else the radius where that is one.
pub open spec fn radius_of(
    p: Passed,
    r_key: Seq<char>,
    r_at: Option<int>,
    d_key: Seq<char>,
    f: spec_fn(FloatOp, u64, u64) -> u64,
) -> Option<u64> {
    match as_number(arg_of(p, d_key, None)) {
        Some(d) => Some(f(FloatOp::Div, d, TWO)),
        None => as_number(arg_of(p, r_key, r_at)),
    }
}

fn get_radius<F: Fn(FloatOp, u64, u64) -> u64>(
    args: &BuiltinArgs,
    r_key: &str,
    r_at: Option<usize>,
    d_key: &str,
    fpu: &F,
) -> (r: Option<u64>)
    requires
        unit_ok(*fpu),
    ensures
        r == radius_of(args@, r_key@, position(r_at), d_key@, unit(*fpu)),
{
    match get_num(args, d_key, None) {
        Some(d) => Some(ask(fpu, FloatOp::Div, d, TWO)),
        None => get_num(args, r_key, r_at),
    }
}

/// A value, or another where there is none.
pub open spec fn or(v: Option<u64>, other: u64) -> u64 {
    match v {
        Some(x) => x,
        None => other,
    }
}

fn else_num(v: Option<u64>, other: u64) -> (r: u64)
    ensures
        r == or(v, other),
{
    match v {
        Some(x) => x,
        None => other,
    }
}

/// The larger of two numbers; the other one where one is no number.
pub open spec fn larger(a: u64, b: u64) -> u64 {
    if is_nan(a) {
        b
    } else if is_nan(b) {
        a
    } else if num_lt(a, b) {
        b
    } else {
        a
    }
}

/// The smaller of two numbers; the other one where one is no number.
pub open spec fn smaller(a: u64, b: u64) -> u64 {
    if is_nan(a) {
        b
    } else if is_nan(b) {
        a
    } else if num_lt(b, a) {
        b
    } else {
        a
    }
}

fn larger_of(a: u64, b: u64) -> (r: u64)
    ensures
        r == larger(a, b),
{
    if nan(a) {
        b
    } else if nan(b) {
        a
    } else if less(a, b) {
        b
    } else {
        a
    }
}

fn smaller_of(a: u64, b: u64) -> (r: u64)
    ensures
        r == smaller(a, b),
{
    if nan(a) {
        b
    } else if nan(b) {
        a
    } else if less(b, a) {
        b
    } else {
        a
    }
}

/// The first numbers of a size: a number alone for each axis, or those of a list that is long
/// enough; else one for each axis.
pub open spec fn size_of(v: Option<Val>, n: nat) -> Seq<u64> {
    match v {
        Some(Val::Num(s)) => Seq::new(n, |i: int| s),
        Some(Val::NumList(xs)) => if xs.len() >= n {
            xs.take(n as int)
        } else {
            Seq::new(n, |i: int| ONE)
        },
        _ => Seq::new(n, |i: int| ONE),
    }
}

fn get_size(args: &BuiltinArgs, n: usize) -> (r: Vec<u64>)
    ensures
        r@ == size_of(arg_of(args@, "size"@, Some(0)), n as nat),
        r@.len() == n,
{
    let v: Option<&Value> = find_arg(args, "size", Some(0));
    let ghost want = size_of(arg_of(args@, "size"@, Some(0)), n as nat);
    assert(position(Some(0usize)) == Some(0int));
    let mut out: Vec<u64> = Vec::new();
    let mut i: usize = 0;
    while i < n
        invariant
            i <= n,
            want == size_of(arg_of(args@, "size"@, Some(0)), n as nat),
            want.len() == n,
            match v {
                Some(x) => arg_of(args@, "size"@, Some(0)) == Some(x@),
                None => arg_of(args@, "size"@, Some(0)) is None,
            },
            out@ =~= want.take(i as int),
        decreases n - i,
    {
        let x: u64 = match v {
            Some(Value::Num(s)) => *s,
            Some(Value::NumList(xs)) => if xs.len() >= n {
                xs[i]
            } else {
                ONE
            },
            _ => ONE,
        };
        assert(want[i as int] == x);
        out.push(x);
        i += 1;
    }
    assert(want.take(want.len() as int) =~= want);
    out
}

/// The index that a number gives: its whole part where it is finite and not negative, else one
/// that no list has.
pub open spec fn index_of(b: u64) -> u32 {
    if is_finite(b) && (!negative(b) || is_zero(b)) {
        to_unsigned(b, u32::MAX as int) as u32
    } else {
        u32::MAX
    }
}

fn to_index(b: u64) -> (r: u32)
    ensures
        r == index_of(b),
{
    if finite(b) && (b < SIGN || zero(b)) {
        to_u32(b)
    } else {
        u32::MAX
    }
}

/// The indices that numbers give.
pub open spec fn indices_of(xs: Seq<u64>) -> Seq<u32> {
    Seq::new(xs.len(), |i: int| index_of(xs[i]))
}

fn to_indices(xs: &Vec<u64>) -> (r: Vec<u32>)
    ensures
        r@ == indices_of(xs@),
{
    let ghost all = indices_of(xs@);
    let mut out: Vec<u32> = Vec::new();
    let mut i: usize = 0;
    while i < xs.len()
        invariant
            i <= xs@.len(),
            all == indices_of(xs@),
            out@ =~= all.take(i as int),
        decreases xs@.len() - i,
    {
        let x: u32 = to_index(xs[i]);
        assert(all[i as int] == x);
        out.push(x);
        i += 1;
    }
    assert(all.take(all.len() as int) =~= all);
    out
}

/// The elements of a general list; none for any other value.
pub open spec fn list_items(v: Option<Val>) -> Seq<Val> {
    match v {
        Some(Val::List(xs)) => xs,
        _ => Seq::empty(),
    }
}

/// The points in space among the first `n` values: lists of at least three numbers.
pub open spec fn points3(vs: Seq<Val>, n: nat) -> Seq<Vec3>
    decreases n,
{
    if n == 0 {
        Seq::empty()
    } else {
        match vs[n - 1] {
            Val::NumList(xs) => if xs.len() >= 3 {
                points3(vs, (n - 1) as nat).push(Vec3 { x: xs[0], y: xs[1], z: xs[2] })
            } else {
                points3(vs, (n - 1) as nat)
            },
            _ => points3(vs, (n - 1) as nat),
        }
    }
}

/// The points in the plane among the first `n` values: lists of at least two numbers.
pub open spec fn points2(vs: Seq<Val>, n: nat) -> Seq<Vec2>
    decreases n,
{
    if n == 0 {
        Seq::empty()
    } else {
        match vs[n - 1] {
            Val::NumList(xs) => if xs.len() >= 2 {
                points2(vs, (n - 1) as nat).push(Vec2 { x: xs[0], y: xs[1] })
            } else {
                points2(vs, (n - 1) as nat)
            },
            _ => points2(vs, (n - 1) as nat),
        }
    }
}

/// The index loops among the first `n` values: lists of numbers.
pub open spec fn loops(vs: Seq<Val>, n: nat) -> Seq<Seq<u32>>
    decreases n,
{
    if n == 0 {
        Seq::empty()
    } else {
        match vs[n - 1] {
            Val::NumList(xs) => loops(vs, (n - 1) as nat).push(indices_of(xs)),
            _ => loops(vs, (n - 1) as nat),
        }
    }
}

/// Some index loops, mathematically.
pub open spec fn faces_of(fs: Seq<Vec<u32>>) -> Seq<Seq<u32>> {
    Seq::new(fs.len(), |i: int| fs[i]@)
}

fn to_points(v: Option<&Value>) -> (r: Vec<Vec3>)
    ensures
        ({
            let vs = list_items(
                match v {
                    Some(x) => Some(x@),
                    None => None,
                },
            );
            r@ == points3(vs, vs.len())
        }),
{
    let mut out: Vec<Vec3> = Vec::new();
    match v {
        Some(Value::List(xs)) => {
            proof {
                lemma_list_view(*xs);
            }
            let ghost vs = vals(xs.0@);
            let mut i: usize = 0;
            while i < xs.0.len()
                invariant
                    i <= xs.0@.len(),
                    vs == vals(xs.0@),
                    out@ == points3(vs, i as nat),
                decreases xs.0@.len() - i,
            {
                assert(vs[i as int] == xs.0@[i as int]@);
                match &xs.0[i] {
                    Value::NumList(p) => {
                        if p.len() >= 3 {
                            out.push(Vec3 { x: p[0], y: p[1], z: p[2] });
                        }
                    },
                    _ => {},
                }
                i += 1;
            }
        },
        _ => {},
    }
    out
}

fn to_points_2d(v: Option<&Value>) -> (r: Vec<Vec2>)
    ensures
        ({
            let vs = list_items(
                match v {
                    Some(x) => Some(x@),
                    None => None,
                },
            );
            r@ == points2(vs, vs.len())
        }),
{
    let mut out: Vec<Vec2> = Vec::new();
    match v {
        Some(Value::List(xs)) => {
            proof {
                lemma_list_view(*xs);
            }
            let ghost vs = vals(xs.0@);
            let mut i: usize = 0;
            while i < xs.0.len()
                invariant
                    i <= xs.0@.len(),
                    vs == vals(xs.0@),
                    out@ == points2(vs, i as nat),
                decreases xs.0@.len() - i,
            {
                assert(vs[i as int] == xs.0@[i as int]@);
                match &xs.0[i] {
                    Value::NumList(p) => {
                        if p.len() >= 2 {
                            out.push(Vec2 { x: p[0], y: p[1] });
                        }
                    },
                    _ => {},
                }
                i += 1;
            }
        },
        _ => {},
    }
    out
}

fn to_faces(xs: &ValueList) -> (r: Vec<Vec<u32>>)
    ensures
        faces_of(r@) == loops(vals(xs.0@), vals(xs.0@).len()),
{
    let ghost vs = vals(xs.0@);
    let mut out: Vec<Vec<u32>> = Vec::new();
    assert(faces_of(out@) =~= Seq::<Seq<u32>>::empty());
    let mut i: usize = 0;
    while i < xs.0.len()
        invariant
            i <= xs.0@.len(),
            vs == vals(xs.0@),
            faces_of(out@) == loops(vs, i as nat),
        decreases xs.0@.len() - i,
    {
        assert(vs[i as int] == xs.0@[i as int]@);
        match &xs.0[i] {
            Value::NumList(idx) => {
                let ghost before = faces_of(out@);
                let one: Vec<u32> = to_indices(idx);
                let ghost shown = one@;
                out.push(one);
                assert(faces_of(out@) =~= before.push(shown));
            },
            _ => {},
        }
        i += 1;
    }
    out
}

/// The loops of a polygon: none where no list of them is given.
pub open spec fn paths_of(v: Option<Val>) -> Option<Seq<Seq<u32>>> {
    match v {
        Some(Val::List(xs)) => Some(loops(xs, xs.len())),
        _ => None,
    }
}

/// Optional index loops, mathematically.
pub open spec fn opt_faces(p: Option<Vec<Vec<u32>>>) -> Option<Seq<Seq<u32>>> {
    match p {
        Some(fs) => Some(faces_of(fs@)),
        None => None,
    }
}

fn to_paths(v: Option<&Value>) -> (r: Option<Vec<Vec<u32>>>)
    ensures
        opt_faces(r) == paths_of(
            match v {
                Some(x) => Some(x@),
                None => None,
            },
        ),
{
    match v {
        Some(Value::List(xs)) => {
            proof {
                lemma_list_view(*xs);
            }
            Some(to_faces(xs))
        },
        _ => None,
    }
}

/// The first index of a face that is out of bounds, from the `j`-th on.
pub open spec fn bad_from(xs: Seq<u64>, n: u32, j: int) -> Option<int>
    decreases xs.len() - j,
{
    if j >= xs.len() {
        None
    } else if index_of(xs[j]) >= n {
        Some(j)
    } else {
        bad_from(xs, n, j + 1)
    }
}

/// The line about an index out of bounds.
pub open spec fn bad_line(idx: u32, i: int, j: int) -> Line {
    Line::Warning(
        "Point index "@ + decimal(idx as nat) + " is out of bounds (from faces["@ + decimal(i as nat)
            + "]["@ + decimal(j as nat) + "])"@,
    )
}

/// The faces among the first `k` values, and what is said about them: a list of numbers is a face
/// where all its indices are below `n`; else it is dropped, with a line about the first bad index
/// where that is a number that is finite and not negative.
pub open spec fn checked_faces(vs: Seq<Val>, n: u32, k: nat) -> (Seq<Seq<u32>>, Seq<Line>)
    decreases k,
{
    if k == 0 {
        (Seq::empty(), Seq::empty())
    } else {
        let (fs, ls) = checked_faces(vs, n, (k - 1) as nat);
        match vs[k - 1] {
            Val::NumList(xs) => match bad_from(xs, n, 0) {
                None => (fs.push(indices_of(xs)), ls),
                Some(j) => if is_finite(xs[j]) && (!negative(xs[j]) || is_zero(xs[j])) {
                    (fs, ls.push(bad_line(index_of(xs[j]), k - 1, j)))
                } else {
                    (fs, ls)
                },
            },
            _ => (fs, ls),
        }
    }
}

fn find_bad(xs: &Vec<u64>, n: u32) -> (r: Option<usize>)
    ensures
        match r {
            Some(j) => j < xs@.len() && bad_from(xs@, n, 0) == Some(j as int),
            None => bad_from(xs@, n, 0) is None,
        },
{
    let mut j: usize = 0;
    while j < xs.len()
        invariant
            j <= xs@.len(),
            bad_from(xs@, n, 0) == bad_from(xs@, n, j as int),
        decreases xs@.len() - j,
    {
        if to_index(xs[j]) >= n {
            return Some(j);
        }
        j += 1;
    }
    None
}

fn bad_text(idx: u32, i: usize, j: usize) -> (r: String)
    ensures
        Line::Warning(r@) == bad_line(idx, i as int, j as int),
{
    let mut out: String = cat5(
        "Point index ",
        dec(idx as u64).as_str(),
        " is out of bounds (from faces[",
        dec(i as u64).as_str(),
        "][",
    );
    out.append(dec(j as u64).as_str());
    out.append("])");
    out
}

/// The faces of a solid with `n` points: a face with an index out of bounds is dropped whole, with a
/// warning about its first bad index.
pub fn validated_faces(v: Option<&Value>, n: u32, log: &mut Vec<Message>) -> (r: Vec<Vec<u32>>)
    ensures
        ({
            let vs = list_items(
                match v {
                    Some(x) => Some(x@),
                    None => None,
                },
            );
            let (fs, ls) = checked_faces(vs, n, vs.len());
            faces_of(r@) == fs && lines(final(log)@) == lines(old(log)@) + ls
        }),
{
    let ghost start = lines(log@);
    let mut out: Vec<Vec<u32>> = Vec::new();
    assert(faces_of(out@) =~= Seq::<Seq<u32>>::empty());
    assert(start =~= start + Seq::<Line>::empty());
    match v {
        Some(Value::List(xs)) => {
            proof {
                lemma_list_view(*xs);
            }
            let ghost vs = vals(xs.0@);
            let mut i: usize = 0;
            while i < xs.0.len()
                invariant
                    i <= xs.0@.len(),
                    vs == vals(xs.0@),
                    faces_of(out@) == checked_faces(vs, n, i as nat).0,
                    lines(log@) == start + checked_faces(vs, n, i as nat).1,
                decreases xs.0@.len() - i,
            {
                assert(vs[i as int] == xs.0@[i as int]@);
                match &xs.0[i] {
                    Value::NumList(raw) => match find_bad(raw, n) {
                        None => {
                            let ghost before = faces_of(out@);
                            let one: Vec<u32> = to_indices(raw);
                            let ghost shown = one@;
                            out.push(one);
                            assert(faces_of(out@) =~= before.push(shown));
                        },
                        Some(j) => {
                            let b: u64 = raw[j];
                            if finite(b) && (b < SIGN || zero(b)) {
                                let ghost before = lines(log@);
                                let m = Message::Warning(bad_text(to_index(b), i, j));
                                let ghost shown = m@;
                                log.push(m);
                                assert(lines(log@) =~= before.push(shown));
                                assert(before.push(shown) =~= start + checked_faces(
                                    vs,
                                    n,
                                    i as nat,
                                ).1.push(shown));
                            }
                        },
                    },
                    _ => {},
                }
                i += 1;
            }
        },
        _ => {},
    }
    out
}

/// The smallest and largest of a coordinate among the first `n` vertices.
pub open spec fn span_x(vs: Seq<Vec3>, n: nat) -> (u64, u64)
    decreases n,
{
    if n == 0 {
        (INF, MINUS_INF)
    } else {
        let (a, b) = span_x(vs, (n - 1) as nat);
        (smaller(a, vs[n - 1].x), larger(b, vs[n - 1].x))
    }
}

/// The smallest and largest of the other coordinate among the first `n` vertices.
pub open spec fn span_y(vs: Seq<Vec3>, n: nat) -> (u64, u64)
    decreases n,
{
    if n == 0 {
        (INF, MINUS_INF)
    } else {
        let (a, b) = span_y(vs, (n - 1) as nat);
        (smaller(a, vs[n - 1].y), larger(b, vs[n - 1].y))
    }
}

/// Less than every number.
pub const MINUS_INF: u64 = 0xfff0_0000_0000_0000;

/// A mesh moved in the plane so that the middle of its box lies over the origin; an empty one stays
/// as it is.
pub fn center_xy<F: Fn(FloatOp, u64, u64) -> u64>(mesh: Mesh, fpu: &F) -> (r: Mesh)
    requires
        unit_ok(*fpu),
    ensures
        r.tris == mesh.tris,
        r.verts@.len() == mesh.verts@.len(),
        ({
            let f = unit(*fpu);
            let vs = mesh.verts@;
            let (ax, bx) = span_x(vs, vs.len());
            let (ay, by) = span_y(vs, vs.len());
            let cx = f(FloatOp::Midpoint, ax, bx);
            let cy = f(FloatOp::Midpoint, ay, by);
            forall|i: int|
                0 <= i < vs.len() ==> #[trigger] r.verts@[i] == (Vec3 {
                    x: f(FloatOp::Sub, vs[i].x, cx),
                    y: f(FloatOp::Sub, vs[i].y, cy),
                    z: vs[i].z,
                })
        }),
{
    let ghost vs = mesh.verts@;
    if mesh.verts.len() == 0 {
        return mesh;
    }
    let mut ax: u64 = INF;
    let mut bx: u64 = MINUS_INF;
    let mut ay: u64 = INF;
    let mut by: u64 = MINUS_INF;
    let mut i: usize = 0;
    while i < mesh.verts.len()
        invariant
            i <= vs.len(),
            vs == mesh.verts@,
            (ax, bx) == span_x(vs, i as nat),
            (ay, by) == span_y(vs, i as nat),
        decreases vs.len() - i,
    {
        let v: Vec3 = mesh.verts[i];
        ax = smaller_of(ax, v.x);
        bx = larger_of(bx, v.x);
        ay = smaller_of(ay, v.y);
        by = larger_of(by, v.y);
        i += 1;
    }
    let cx: u64 = ask(fpu, FloatOp::Midpoint, ax, bx);
    let cy: u64 = ask(fpu, FloatOp::Midpoint, ay, by);
    let mut verts: Vec<Vec3> = Vec::new();
    let mut k: usize = 0;
    while k < mesh.verts.len()
        invariant
            k <= vs.len(),
            vs == mesh.verts@,
            unit_ok(*fpu),
            verts@.len() == k,
            forall|j: int|
                0 <= j < k ==> #[trigger] verts@[j] == (Vec3 {
                    x: unit(*fpu)(FloatOp::Sub, vs[j].x, cx),
                    y: unit(*fpu)(FloatOp::Sub, vs[j].y, cy),
                    z: vs[j].z,
                }),
        decreases vs.len() - k,
    {
        let v: Vec3 = mesh.verts[k];
        verts.push(
            Vec3 {
                x: ask(fpu, FloatOp::Sub, v.x, cx),
                y: ask(fpu, FloatOp::Sub, v.y, cy),
                z: v.z,
            },
        );
        k += 1;
    }
    Mesh { verts, tris: mesh.tris }
}

/// What decides how finely a circle of a radius is drawn.
#[derive(Debug, Clone, Copy, PartialEq, Eq, Structural)]
pub struct Fineness {
    pub r: u64,
    pub fn_: u64,
    pub fa: u64,
    pub fs: u64,
}

/// The fineness of a circle where the settings are those of a scope.
pub open spec fn fineness(s: State, scope: Scope, r: u64) -> Fineness {
    Fineness {
        r,
        fn_: number_of(meaning(s.store, scope, "$fn"@)),
        fa: number_of(meaning(s.store, scope, "$fa"@)),
        fs: number_of(meaning(s.store, scope, "$fs"@)),
    }
}

/// A read of a name in a scope.
pub open spec fn reading(s: State, scope: Scope, name: Seq<char>) -> State {
    State { rec: after_read(s.store, s.rec, scope, name), ..s }
}

/// The reads of the settings of a circle.
pub open spec fn fine_read(s: State, scope: Scope) -> State {
    reading(reading(reading(s, scope, "$fn"@), scope, "$fa"@), scope, "$fs"@)
}

/// Whether a shape is made of circles or arcs.
pub open spec fn is_round(name: Seq<char>) -> bool {
    name == "sphere"@ || name == "cylinder"@ || name == "circle"@ || name == "text"@
}

/// The arguments of `text`.
#[derive(Debug)]
pub struct TextParams {
    pub text: Name,
    pub size: u64,
    pub halign: Name,
    pub valign: Name,
    pub spacing: u64,
    pub direction: Name,
    pub language: Name,
    pub script: Name,
}

/// The arguments of `text`, mathematically.
pub struct Lettering {
    pub text: Seq<char>,
    pub size: u64,
    pub halign: Seq<char>,
    pub valign: Seq<char>,
    pub spacing: u64,
    pub direction: Seq<char>,
    pub language: Seq<char>,
    pub script: Seq<char>,
}

impl View for TextParams {
    type V = Lettering;

    open spec fn view(&self) -> Lettering {
        Lettering {
            text: self.text@,
            size: self.size,
            halign: self.halign@,
            valign: self.valign@,
            spacing: self.spacing,
            direction: self.direction@,
            language: self.language@,
            script: self.script@,
        }
    }
}

/// A builtin shape with what it is made with.
#[derive(Debug)]
#[allow(inconsistent_fields)]
pub enum Primitive {
    Sphere { fine: Fineness },
    Cube { size: [u64; 3], center: bool },
    Cylinder { h: u64, r1: u64, r2: u64, fine: Fineness, center: bool },
    Polyhedron { points: Vec<Vec3>, faces: Vec<Vec<u32>> },
    Square { x: u64, y: u64, center: bool },
    Circle { fine: Fineness },
    Polygon { points: Vec<Vec2>, paths: Option<Vec<Vec<u32>>> },
    Text { params: TextParams, fine: Fineness },
    Import { file: Option<Name> },
    Surface { file: Option<Name>, center: bool },
    /// No shape of that name.
    Unknown,
}

/// A builtin shape with what it is made with, mathematically.
#[allow(inconsistent_fields)]
pub enum Made {
    Sphere { fine: Fineness },
    Cube { size: Seq<u64>, center: bool },
    Cylinder { h: u64, r1: u64, r2: u64, fine: Fineness, center: bool },
    Polyhedron { points: Seq<Vec3>, faces: Seq<Seq<u32>> },
    Square { x: u64, y: u64, center: bool },
    Circle { fine: Fineness },
    Polygon { points: Seq<Vec2>, paths: Option<Seq<Seq<u32>>> },
    Text { params: Lettering, fine: Fineness },
    Import { file: Option<Seq<char>> },
    Surface { file: Option<Seq<char>>, center: bool },
    Unknown,
}

impl View for Primitive {
    type V = Made;

    open spec fn view(&self) -> Made {
        match self {
            Primitive::Sphere { fine } => Made::Sphere { fine: *fine },
            Primitive::Cube { size, center } => Made::Cube { size: size@, center: *center },
            Primitive::Cylinder { h, r1, r2, fine, center } => Made::Cylinder {
                h: *h,
                r1: *r1,
                r2: *r2,
                fine: *fine,
                center: *center,
            },
            Primitive::Polyhedron { points, faces } => Made::Polyhedron {
                points: points@,
                faces: faces_of(faces@),
            },
            Primitive::Square { x, y, center } => Made::Square { x: *x, y: *y, center: *center },
            Primitive::Circle { fine } => Made::Circle { fine: *fine },
            Primitive::Polygon { points, paths } => Made::Polygon {
                points: points@,
                paths: opt_faces(*paths),
            },
            Primitive::Text { params, fine } => Made::Text { params: params@, fine: *fine },
            Primitive::Import { file } => Made::Import { file: opt_text(*file) },
            Primitive::Surface { file, center } => Made::Surface {
                file: opt_text(*file),
                center: *center,
            },
            Primitive::Unknown => Made::Unknown,
        }
    }
}

/// A text, or another where there is none.
pub open spec fn text_or(v: Option<Seq<char>>, other: Seq<char>) -> Seq<char> {
    match v {
        Some(x) => x,
        None => other,
    }
}

/// A radius, or the one both ends share, or one.
pub open spec fn end_radius(end: Option<u64>, both: Option<u64>) -> u64 {
    match end {
        Some(r) => r,
        None => or(both, ONE),
    }
}

/// The number of points, as far as an index can tell.
pub open spec fn point_count(n: nat) -> u32 {
    if n > u32::MAX {
        u32::MAX
    } else {
        n as u32
    }
}

/// What `text` is made with.
pub open spec fn lettering(p: Passed) -> Lettering {
    Lettering {
        text: text_or(as_text(arg_of(p, "text"@, Some(0))), ""@),
        size: or(as_number(arg_of(p, "size"@, Some(1))), TEN),
        halign: text_or(as_text(arg_of(p, "halign"@, Some(3))), "left"@),
        valign: text_or(as_text(arg_of(p, "valign"@, Some(4))), "baseline"@),
        spacing: or(as_number(arg_of(p, "spacing"@, Some(5))), ONE),
        direction: text_or(as_text(arg_of(p, "direction"@, Some(6))), ""@),
        language: text_or(as_text(arg_of(p, "language"@, Some(7))), ""@),
        script: text_or(as_text(arg_of(p, "script"@, Some(8))), ""@),
    }
}

/// What `cylinder` is made with.
pub open spec fn cylinder_of(s: State, p: Passed, f: spec_fn(FloatOp, u64, u64) -> u64) -> Made {
    let both = radius_of(p, "r"@, None, "d"@, f);
    let r1 = end_radius(radius_of(p, "r1"@, Some(1), "d1"@, f), both);
    let r2 = end_radius(radius_of(p, "r2"@, Some(2), "d2"@, f), both);
    Made::Cylinder {
        h: or(as_number(arg_of(p, "h"@, Some(0))), ONE),
        r1,
        r2,
        fine: fineness(s, p.scope, larger(r1, r2)),
        center: is_set(arg_of(p, "center"@, Some(3))),
    }
}

/// The shape of a name with what it is made with, and what is said about it.
pub open spec fn made(
    s: State,
    name: Seq<char>,
    p: Passed,
    f: spec_fn(FloatOp, u64, u64) -> u64,
) -> (Made, Seq<Line>) {
    let quiet = Seq::<Line>::empty();
    if name == "sphere"@ {
        let r = or(radius_of(p, "r"@, Some(0), "d"@, f), ONE);
        (Made::Sphere { fine: fineness(s, p.scope, r) }, quiet)
    } else if name == "cube"@ {
        (
            Made::Cube {
                size: size_of(arg_of(p, "size"@, Some(0)), 3),
                center: is_set(arg_of(p, "center"@, Some(1))),
            },
            quiet,
        )
    } else if name == "cylinder"@ {
        (cylinder_of(s, p, f), quiet)
    } else if name == "polyhedron"@ {
        let vs = list_items(arg_of(p, "points"@, Some(0)));
        let points = points3(vs, vs.len());
        let fs = list_items(arg_of(p, "faces"@, Some(1)));
        let (faces, ls) = checked_faces(fs, point_count(points.len()), fs.len());
        (Made::Polyhedron { points, faces }, ls)
    } else if name == "square"@ {
        let size = size_of(arg_of(p, "size"@, Some(0)), 2);
        (
            Made::Square {
                x: size[0],
                y: size[1],
                center: is_set(arg_of(p, "center"@, Some(1))),
            },
            quiet,
        )
    } else if name == "circle"@ {
        let r = or(radius_of(p, "r"@, Some(0), "d"@, f), ONE);
        (Made::Circle { fine: fineness(s, p.scope, r) }, quiet)
    } else if name == "polygon"@ {
        let vs = list_items(arg_of(p, "points"@, Some(0)));
        (
            Made::Polygon {
                points: points2(vs, vs.len()),
                paths: paths_of(arg_of(p, "paths"@, Some(1))),
            },
            quiet,
        )
    } else if name == "text"@ {
        let params = lettering(p);
        (Made::Text { params, fine: fineness(s, p.scope, params.size) }, quiet)
    } else if name == "import"@ {
        (Made::Import { file: as_text(arg_of(p, "file"@, Some(0))) }, quiet)
    } else if name == "surface"@ {
        (
            Made::Surface {
                file: as_text(arg_of(p, "file"@, Some(0))),
                center: is_set(arg_of(p, "center"@, Some(1))),
            },
            quiet,
        )
    } else {
        (Made::Unknown, quiet.push(Line::Warning("Ignoring unknown module '"@ + name + "'"@)))
    }
}

fn text_arg(args: &BuiltinArgs, key: &str, at: usize, other: &str) -> (r: Name)
    ensures
        r@ == text_or(as_text(arg_of(args@, key@, Some(at as int))), other@),
{
    match get_string(args, key, Some(at)) {
        Some(n) => n,
        None => Rc::new(other.to_owned()),
    }
}

fn letter(args: &BuiltinArgs) -> (r: TextParams)
    ensures
        r@ == lettering(args@),
{
    TextParams {
        text: text_arg(args, "text", 0, ""),
        size: else_num(get_num(args, "size", Some(1)), TEN),
        halign: text_arg(args, "halign", 3, "left"),
        valign: text_arg(args, "valign", 4, "baseline"),
        spacing: else_num(get_num(args, "spacing", Some(5)), ONE),
        direction: text_arg(args, "direction", 6, ""),
        language: text_arg(args, "language", 7, ""),
        script: text_arg(args, "script", 8, ""),
    }
}

/// The names of the shapes differ.
proof fn lemma_shapes_differ()
    ensures
        !is_round("cube"@),
        !is_round("polyhedron"@),
        !is_round("square"@),
        !is_round("polygon"@),
        !is_round("import"@),
        !is_round("surface"@),
{
    reveal_strlit("sphere");
    reveal_strlit("cylinder");
    reveal_strlit("circle");
    reveal_strlit("text");
    reveal_strlit("cube");
    reveal_strlit("polyhedron");
    reveal_strlit("square");
    reveal_strlit("polygon");
    reveal_strlit("import");
    reveal_strlit("surface");
    assert("sphere"@.len() == 6 && "cylinder"@.len() == 8 && "circle"@.len() == 6 && "text"@.len() == 4);
    assert("cube"@[0] == 'c' && "text"@[0] == 't');
    assert("polyhedron"@.len() == 10 && "polygon"@.len() == 7 && "surface"@.len() == 7);
    assert("square"@[1] == 'q' && "sphere"@[1] == 'p' && "circle"@[1] == 'i');
    assert("import"@[1] == 'm');
}

impl<'a> Ctx<'a> {
    fn setting(&mut self, scope: Scope, name: &str) -> (r: u64)
        requires
            run_ok(old(self)@),
            scope_ok(old(self)@.store, scope),
        ensures
            r == number_of(meaning(old(self)@.store, scope, name@)),
            final(self)@ == reading(old(self)@, scope, name@),
            run_ok(final(self)@),
    {
        let ghost before = self@;
        let v: Option<Value> = self.captures.read(&self.store, scope, name);
        proof {
            crate::eval::lemma_grown(before, self@);
        }
        match v {
            Some(Value::Num(n)) => n,
            _ => 0,
        }
    }

    fn fine(&mut self, scope: Scope, r: u64) -> (f: Fineness)
        requires
            run_ok(old(self)@),
            scope_ok(old(self)@.store, scope),
        ensures
            f == fineness(old(self)@, scope, r),
            final(self)@ == fine_read(old(self)@, scope),
            run_ok(final(self)@),
    {
        let fn_: u64 = self.setting(scope, "$fn");
        let fa: u64 = self.setting(scope, "$fa");
        let fs: u64 = self.setting(scope, "$fs");
        Fineness { r, fn_, fa, fs }
    }

    /// The builtin shape of a name with what it is made with. One that is made of circles reads their
    /// settings. A name that no shape has is warned about.
    #[verifier::rlimit(30)]
    pub fn primitive<F: Fn(FloatOp, u64, u64) -> u64>(
        &mut self,
        name: &Name,
        args: &BuiltinArgs,
        fpu: &F,
    ) -> (r: Primitive)
        requires
            run_ok(old(self)@),
            unit_ok(*fpu),
            scope_ok(old(self)@.store, args.scope),
        ensures
            ({
                let (m, ls) = made(old(self)@, name@, args@, unit(*fpu));
                let t = if is_round(name@) {
                    fine_read(old(self)@, args.scope)
                } else {
                    old(self)@
                };
                r@ == m && final(self)@ == (State { log: old(self)@.log + ls, ..t })
            }),
            run_ok(final(self)@),
    {
        let ghost s0 = self@;
        let n: &str = name.as_str();
        proof {
            lemma_shapes_differ();
        }
        proof {
            assert(s0.log + Seq::<Line>::empty() =~= s0.log);
        }
        if same(n, "sphere") {
            let r: u64 = else_num(get_radius(args, "r", Some(0), "d", fpu), ONE);
            return Primitive::Sphere { fine: self.fine(args.scope, r) };
        }
        if same(n, "cube") {
            let v: Vec<u64> = get_size(args, 3);
            let size: [u64; 3] = [v[0], v[1], v[2]];
            assert(size@ =~= v@);
            return Primitive::Cube { size, center: is_true(args, "center", Some(1)) };
        }
        if same(n, "cylinder") {
            let both: Option<u64> = get_radius(args, "r", None, "d", fpu);
            let r1: u64 = match get_radius(args, "r1", Some(1), "d1", fpu) {
                Some(r) => r,
                None => else_num(both, ONE),
            };
            let r2: u64 = match get_radius(args, "r2", Some(2), "d2", fpu) {
                Some(r) => r,
                None => else_num(both, ONE),
            };
            return Primitive::Cylinder {
                h: else_num(get_num(args, "h", Some(0)), ONE),
                r1,
                r2,
                fine: self.fine(args.scope, larger_of(r1, r2)),
                center: is_true(args, "center", Some(3)),
            };
        }
        if same(n, "polyhedron") {
            let points: Vec<Vec3> = to_points(find_arg(args, "points", Some(0)));
            let count: u32 = if points.len() as u64 > u32::MAX as u64 {
                u32::MAX
            } else {
                points.len() as u32
            };
            let ghost before = self@;
            let faces: Vec<Vec<u32>> = validated_faces(
                find_arg(args, "faces", Some(1)),
                count,
                &mut self.messages,
            );
            proof {
                crate::eval::lemma_grown(before, self@);
            }
            return Primitive::Polyhedron { points, faces };
        }
        if same(n, "square") {
            let v: Vec<u64> = get_size(args, 2);
            return Primitive::Square {
                x: v[0],
                y: v[1],
                center: is_true(args, "center", Some(1)),
            };
        }
        if same(n, "circle") {
            let r: u64 = else_num(get_radius(args, "r", Some(0), "d", fpu), ONE);
            return Primitive::Circle { fine: self.fine(args.scope, r) };
        }
        if same(n, "polygon") {
            return Primitive::Polygon {
                points: to_points_2d(find_arg(args, "points", Some(0))),
                paths: to_paths(find_arg(args, "paths", Some(1))),
            };
        }
        if same(n, "text") {
            let params: TextParams = letter(args);
            let fine: Fineness = self.fine(args.scope, params.size);
            return Primitive::Text { params, fine };
        }
        if same(n, "import") {
            return Primitive::Import { file: get_string(args, "file", Some(0)) };
        }
        if same(n, "surface") {
            return Primitive::Surface {
                file: get_string(args, "file", Some(0)),
                center: is_true(args, "center", Some(1)),
            };
        }
        self.warn(cat3("Ignoring unknown module '", n, "'"));
        assert(self@.log =~= s0.log + Seq::<Line>::empty().push(
            Line::Warning("Ignoring unknown module '"@ + name@ + "'"@),
        ));
        Primitive::Unknown
    }
}

/// An argument given by name counts before one given by position.
pub proof fn law_names_beat_positions(p: Passed, key: Seq<char>, at: Option<int>, v: Val)
    requires
        named_from(p.named, key, 0) == Some(v),
    ensures
        arg_of(p, key, at) == Some(v),
{
}

/// A diameter counts before a radius.
pub proof fn law_diameter_beats_radius(
    p: Passed,
    r_key: Seq<char>,
    r_at: Option<int>,
    d_key: Seq<char>,
    d: u64,
    f: spec_fn(FloatOp, u64, u64) -> u64,
)
    requires
        arg_of(p, d_key, None) == Some(Val::Num(d)),
    ensures
        radius_of(p, r_key, r_at, d_key, f) == Some(f(FloatOp::Div, d, TWO)),
{
}

/// Whether a value is given by name: the first of that name.
pub open spec fn given_by_name(p: Passed, key: Seq<char>, v: Val) -> bool {
    exists|i: int|
        0 <= i < p.named.len() && #[trigger] p.named[i] == (key, v) && forall|j: int|
            0 <= j < i ==> (#[trigger] p.named[j]).0 != key
}

/// Whether nothing is given by a name.
pub open spec fn not_named(p: Passed, key: Seq<char>) -> bool {
    forall|i: int| 0 <= i < p.named.len() ==> (#[trigger] p.named[i]).0 != key
}

/// Whether a value is given for a parameter: by its name, or at its position where nothing is given by the
/// name. A parameter without a position has a negative one.
pub open spec fn says(p: Passed, key: Seq<char>, at: int, v: Val) -> bool {
    ||| given_by_name(p, key, v)
    ||| not_named(p, key) && 0 <= at < p.positional.len() && p.positional[at] == v
}

/// Whether no number is given for a parameter.
pub open spec fn no_number(p: Passed, key: Seq<char>, at: int) -> bool {
    forall|x: u64| !says(p, key, at, Val::Num(x))
}

/// Whether no text is given for a parameter.
pub open spec fn no_text(p: Passed, key: Seq<char>, at: int) -> bool {
    forall|x: Seq<char>| !says(p, key, at, Val::Str(x))
}

proof fn lemma_named(p: Passed, key: Seq<char>, i: int)
    requires
        0 <= i <= p.named.len(),
        forall|j: int| 0 <= j < i ==> (#[trigger] p.named[j]).0 != key,
    ensures
        match named_from(p.named, key, i) {
            Some(v) => given_by_name(p, key, v),
            None => not_named(p, key),
        },
    decreases p.named.len() - i,
{
    if i < p.named.len() {
        if p.named[i].0 == key {
            assert(p.named[i] == (key, p.named[i].1));
        } else {
            lemma_named(p, key, i + 1);
        }
    }
}

/// What is given for a parameter is what the shapes are made with.
pub proof fn law_arguments(p: Passed, key: Seq<char>, at: int, v: Val)
    ensures
        at >= 0 ==> (says(p, key, at, v) <==> arg_of(p, key, Some(at)) == Some(v)),
        at < 0 ==> (says(p, key, at, v) <==> arg_of(p, key, None) == Some(v)),
{
    lemma_named(p, key, 0);
    match named_from(p.named, key, 0) {
        Some(w) => {
            let i = choose|i: int|
                0 <= i < p.named.len() && #[trigger] p.named[i] == (key, w) && forall|j: int|
                    0 <= j < i ==> (#[trigger] p.named[j]).0 != key;
            assert(!not_named(p, key));
            if given_by_name(p, key, v) {
                let k = choose|k: int|
                    0 <= k < p.named.len() && #[trigger] p.named[k] == (key, v) && forall|j: int|
                        0 <= j < k ==> (#[trigger] p.named[j]).0 != key;
                if i < k {
                    assert(p.named[i].0 != key);
                } else if k < i {
                    assert(p.named[k].0 != key);
                }
            }
        },
        None => {
            if given_by_name(p, key, v) {
                let k = choose|k: int|
                    0 <= k < p.named.len() && #[trigger] p.named[k] == (key, v) && forall|j: int|
                        0 <= j < k ==> (#[trigger] p.named[j]).0 != key;
                assert(p.named[k].0 != key);
            }
        },
    }
}

proof fn lemma_number(p: Passed, key: Seq<char>, at: int)
    ensures
        match as_number(arg_of(p, key, if at < 0 { None } else { Some(at) })) {
            Some(x) => says(p, key, at, Val::Num(x)),
            None => no_number(p, key, at),
        },
        forall|x: u64| #[trigger]
            says(p, key, at, Val::Num(x)) ==> as_number(
                arg_of(p, key, if at < 0 { None } else { Some(at) }),
            ) == Some(x),
{
    match as_number(arg_of(p, key, if at < 0 { None } else { Some(at) })) {
        Some(x) => {
            law_arguments(p, key, at, Val::Num(x));
        },
        None => {},
    }
    assert forall|x: u64| #[trigger] says(p, key, at, Val::Num(x)) implies as_number(
        arg_of(p, key, if at < 0 { None } else { Some(at) }),
    ) == Some(x) by {
        law_arguments(p, key, at, Val::Num(x));
    }
}

proof fn lemma_text(p: Passed, key: Seq<char>, at: int)
    requires
        at >= 0,
    ensures
        match as_text(arg_of(p, key, Some(at))) {
            Some(x) => says(p, key, at, Val::Str(x)),
            None => no_text(p, key, at),
        },
        forall|x: Seq<char>| #[trigger]
            says(p, key, at, Val::Str(x)) ==> as_text(arg_of(p, key, Some(at))) == Some(x),
{
    match as_text(arg_of(p, key, Some(at))) {
        Some(x) => {
            law_arguments(p, key, at, Val::Str(x));
        },
        None => {},
    }
    assert forall|x: Seq<char>| #[trigger] says(p, key, at, Val::Str(x)) implies as_text(
        arg_of(p, key, Some(at)),
    ) == Some(x) by {
        law_arguments(p, key, at, Val::Str(x));
    }
}

proof fn lemma_shape_names()
    ensures
        "cube"@ != "sphere"@,
        "cylinder"@ != "sphere"@,
        "cylinder"@ != "cube"@,
        "polyhedron"@ != "sphere"@,
        "polyhedron"@ != "cube"@,
        "polyhedron"@ != "cylinder"@,
        "square"@ != "sphere"@,
        "square"@ != "cube"@,
        "square"@ != "cylinder"@,
        "square"@ != "polyhedron"@,
        "circle"@ != "sphere"@,
        "circle"@ != "cube"@,
        "circle"@ != "cylinder"@,
        "circle"@ != "polyhedron"@,
        "circle"@ != "square"@,
        "polygon"@ != "sphere"@,
        "polygon"@ != "cube"@,
        "polygon"@ != "cylinder"@,
        "polygon"@ != "polyhedron"@,
        "polygon"@ != "square"@,
        "polygon"@ != "circle"@,
        "text"@ != "sphere"@,
        "text"@ != "cube"@,
        "text"@ != "cylinder"@,
        "text"@ != "polyhedron"@,
        "text"@ != "square"@,
        "text"@ != "circle"@,
        "text"@ != "polygon"@,
        "import"@ != "sphere"@,
        "import"@ != "cube"@,
        "import"@ != "cylinder"@,
        "import"@ != "polyhedron"@,
        "import"@ != "square"@,
        "import"@ != "circle"@,
        "import"@ != "polygon"@,
        "import"@ != "text"@,
        "surface"@ != "sphere"@,
        "surface"@ != "cube"@,
        "surface"@ != "cylinder"@,
        "surface"@ != "polyhedron"@,
        "surface"@ != "square"@,
        "surface"@ != "circle"@,
        "surface"@ != "polygon"@,
        "surface"@ != "text"@,
        "surface"@ != "import"@,
{
    reveal_strlit("sphere");
    reveal_strlit("cylinder");
    reveal_strlit("circle");
    reveal_strlit("text");
    reveal_strlit("cube");
    reveal_strlit("polyhedron");
    reveal_strlit("square");
    reveal_strlit("polygon");
    reveal_strlit("import");
    reveal_strlit("surface");
    assert("sphere"@.len() == 6 && "square"@.len() == 6 && "circle"@.len() == 6 && "import"@.len() == 6);
    assert("text"@.len() == 4 && "cube"@.len() == 4 && "polygon"@.len() == 7 && "surface"@.len() == 7);
    assert("cylinder"@.len() == 8 && "polyhedron"@.len() == 10);
    assert("sphere"@[1] == 'p' && "square"@[1] == 'q' && "circle"@[1] == 'i' && "import"@[1] == 'm');
    assert("cube"@[0] == 'c' && "text"@[0] == 't' && "polygon"@[0] == 'p' && "surface"@[0] == 's');
}

/// Half of a number, as the float unit divides it by two.
pub open spec fn half(d: u64, f: spec_fn(FloatOp, u64, u64) -> u64) -> u64 {
    f(FloatOp::Div, d, 0x4000_0000_0000_0000)
}

/// Each end of a cylinder has half of its own diameter, where that is given, whatever else is; else its
/// own radius; else half of the diameter, or the radius, that both ends share; else one.
pub proof fn law_cylinder_ends(s: State, p: Passed, d: u64, r: u64, f: spec_fn(FloatOp, u64, u64) -> u64)
    ensures
        made(s, "cylinder"@, p, f).0 matches Made::Cylinder { r1, r2, .. } && {
            let free1 = no_number(p, "d1"@, -1) && no_number(p, "r1"@, 1);
            let free2 = no_number(p, "d2"@, -1) && no_number(p, "r2"@, 2);
            &&& says(p, "d1"@, -1, Val::Num(d)) ==> r1 == half(d, f)
            &&& says(p, "d2"@, -1, Val::Num(d)) ==> r2 == half(d, f)
            &&& no_number(p, "d1"@, -1) && says(p, "r1"@, 1, Val::Num(r)) ==> r1 == r
            &&& no_number(p, "d2"@, -1) && says(p, "r2"@, 2, Val::Num(r)) ==> r2 == r
            &&& free1 && says(p, "d"@, -1, Val::Num(d)) ==> r1 == half(d, f)
            &&& free2 && says(p, "d"@, -1, Val::Num(d)) ==> r2 == half(d, f)
            &&& free1 && no_number(p, "d"@, -1) && says(p, "r"@, -1, Val::Num(r)) ==> r1 == r
            &&& free2 && no_number(p, "d"@, -1) && says(p, "r"@, -1, Val::Num(r)) ==> r2 == r
            &&& free1 && no_number(p, "d"@, -1) && no_number(p, "r"@, -1) ==> r1
                == 0x3ff0_0000_0000_0000
            &&& free2 && no_number(p, "d"@, -1) && no_number(p, "r"@, -1) ==> r2
                == 0x3ff0_0000_0000_0000
        },
{
    lemma_shape_names();
    lemma_number(p, "d1"@, -1);
    lemma_number(p, "r1"@, 1);
    lemma_number(p, "d2"@, -1);
    lemma_number(p, "r2"@, 2);
    lemma_number(p, "d"@, -1);
    lemma_number(p, "r"@, -1);
}

/// A cylinder has the height that is given, else one; it is centred exactly where that is said; and it is
/// drawn as finely as the wider one of its ends asks for.
pub proof fn law_cylinder(s: State, p: Passed, x: u64, f: spec_fn(FloatOp, u64, u64) -> u64)
    ensures
        made(s, "cylinder"@, p, f).0 matches Made::Cylinder { h, r1, r2, fine, center } && {
            &&& says(p, "h"@, 0, Val::Num(x)) ==> h == x
            &&& no_number(p, "h"@, 0) ==> h == 0x3ff0_0000_0000_0000
            &&& center <==> says(p, "center"@, 3, Val::Bool(true))
            &&& fine.r == r1 || fine.r == r2
            &&& !num_lt(fine.r, r1) && !num_lt(fine.r, r2)
            &&& !is_nan(r1) || !is_nan(r2) ==> !is_nan(fine.r)
            &&& settings_of(s, p.scope, fine)
        },
{
    lemma_shape_names();
    lemma_number(p, "h"@, 0);
    law_arguments(p, "center"@, 3, Val::Bool(true));
}

/// Whether the settings of a circle are the numbers that `$fn`, `$fa` and `$fs` mean in a scope; one that
/// means no number counts as zero.
pub open spec fn settings_of(s: State, scope: Scope, fine: Fineness) -> bool {
    &&& setting_of(meaning(s.store, scope, "$fn"@), fine.fn_)
    &&& setting_of(meaning(s.store, scope, "$fa"@), fine.fa)
    &&& setting_of(meaning(s.store, scope, "$fs"@), fine.fs)
}

/// Whether a number is what a setting is.
pub open spec fn setting_of(v: Option<Val>, n: u64) -> bool {
    match v {
        Some(Val::Num(x)) => n == x,
        _ => n == 0,
    }
}

/// A sphere and a circle have half of the diameter that is given, else the radius, else one.
pub proof fn law_round_shapes(s: State, p: Passed, d: u64, r: u64, f: spec_fn(FloatOp, u64, u64) -> u64)
    ensures
        made(s, "sphere"@, p, f).0 matches Made::Sphere { fine } && {
            &&& says(p, "d"@, -1, Val::Num(d)) ==> fine.r == half(d, f)
            &&& no_number(p, "d"@, -1) && says(p, "r"@, 0, Val::Num(r)) ==> fine.r == r
            &&& no_number(p, "d"@, -1) && no_number(p, "r"@, 0) ==> fine.r == 0x3ff0_0000_0000_0000
            &&& settings_of(s, p.scope, fine)
        },
        made(s, "circle"@, p, f).0 matches Made::Circle { fine } && {
            &&& says(p, "d"@, -1, Val::Num(d)) ==> fine.r == half(d, f)
            &&& no_number(p, "d"@, -1) && says(p, "r"@, 0, Val::Num(r)) ==> fine.r == r
            &&& no_number(p, "d"@, -1) && no_number(p, "r"@, 0) ==> fine.r == 0x3ff0_0000_0000_0000
            &&& settings_of(s, p.scope, fine)
        },
        made(s, "sphere"@, p, f).1.len() == 0,
        made(s, "circle"@, p, f).1.len() == 0,
{
    lemma_shape_names();
    lemma_number(p, "d"@, -1);
    lemma_number(p, "r"@, 0);
}

/// A cube and a square are as large along each axis as the size says: a number for every axis, or the first
/// numbers of a list that has enough of them; else one. They are centred exactly where that is said.
pub proof fn law_boxes(
    s: State,
    p: Passed,
    x: u64,
    xs: Seq<u64>,
    v: Val,
    f: spec_fn(FloatOp, u64, u64) -> u64,
)
    ensures
        made(s, "cube"@, p, f).0 matches Made::Cube { size, center } && {
            &&& size.len() == 3
            &&& says(p, "size"@, 0, Val::Num(x)) ==> size[0] == x && size[1] == x && size[2] == x
            &&& says(p, "size"@, 0, Val::NumList(xs)) && xs.len() >= 3 ==> size[0] == xs[0] && size[1]
                == xs[1] && size[2] == xs[2]
            &&& says(p, "size"@, 0, Val::NumList(xs)) && xs.len() < 3 ==> size == seq![
                0x3ff0_0000_0000_0000,
                0x3ff0_0000_0000_0000,
                0x3ff0_0000_0000_0000u64,
            ]
            &&& says(p, "size"@, 0, v) && !(v is Num) && !(v is NumList) ==> size == seq![
                0x3ff0_0000_0000_0000,
                0x3ff0_0000_0000_0000,
                0x3ff0_0000_0000_0000u64,
            ]
            &&& center <==> says(p, "center"@, 1, Val::Bool(true))
        },
        made(s, "square"@, p, f).0 matches Made::Square { x: w, y: h, center } && {
            &&& says(p, "size"@, 0, Val::Num(x)) ==> w == x && h == x
            &&& says(p, "size"@, 0, Val::NumList(xs)) && xs.len() >= 2 ==> w == xs[0] && h == xs[1]
            &&& says(p, "size"@, 0, Val::NumList(xs)) && xs.len() < 2 ==> w == 0x3ff0_0000_0000_0000 && h
                == 0x3ff0_0000_0000_0000
            &&& says(p, "size"@, 0, v) && !(v is Num) && !(v is NumList) ==> w == 0x3ff0_0000_0000_0000 && h
                == 0x3ff0_0000_0000_0000
            &&& center <==> says(p, "center"@, 1, Val::Bool(true))
        },
        not_named(p, "size"@) && p.positional.len() == 0 ==> (made(
            s,
            "cube"@,
            p,
            f,
        ).0 matches Made::Cube { size, .. } && size == seq![
            0x3ff0_0000_0000_0000,
            0x3ff0_0000_0000_0000,
            0x3ff0_0000_0000_0000u64,
        ]) && (made(s, "square"@, p, f).0 matches Made::Square { x: w, y: h, .. } && w
            == 0x3ff0_0000_0000_0000 && h == 0x3ff0_0000_0000_0000),
{
    lemma_shape_names();
    law_arguments(p, "size"@, 0, Val::Num(x));
    law_arguments(p, "size"@, 0, Val::NumList(xs));
    law_arguments(p, "size"@, 0, v);
    law_arguments(p, "center"@, 1, Val::Bool(true));
    lemma_named(p, "size"@, 0);
    let ones = Seq::new(3, |i: int| ONE);
    assert(ones =~= seq![0x3ff0_0000_0000_0000, 0x3ff0_0000_0000_0000, 0x3ff0_0000_0000_0000u64]);
    if not_named(p, "size"@) {
        match named_from(p.named, "size"@, 0) {
            Some(w) => {
                let i = choose|i: int|
                    0 <= i < p.named.len() && #[trigger] p.named[i] == ("size"@, w) && forall|j: int|
                        0 <= j < i ==> (#[trigger] p.named[j]).0 != "size"@;
                assert(p.named[i].0 != "size"@);
            },
            None => {},
        }
    }
}

/// A text is made of what is given for its parameters, each by its own name or position; what is not given
/// is the usual: nothing to letter, ten high, from the left on the baseline, not spread.
pub proof fn law_text(
    s: State,
    p: Passed,
    x: u64,
    t: Seq<char>,
    f: spec_fn(FloatOp, u64, u64) -> u64,
)
    ensures
        made(s, "text"@, p, f).0 matches Made::Text { params, fine } && {
            &&& says(p, "text"@, 0, Val::Str(t)) ==> params.text == t
            &&& no_text(p, "text"@, 0) ==> params.text.len() == 0
            &&& says(p, "size"@, 1, Val::Num(x)) ==> params.size == x
            &&& no_number(p, "size"@, 1) ==> params.size == 0x4024_0000_0000_0000
            &&& says(p, "halign"@, 3, Val::Str(t)) ==> params.halign == t
            &&& no_text(p, "halign"@, 3) ==> params.halign == "left"@
            &&& says(p, "valign"@, 4, Val::Str(t)) ==> params.valign == t
            &&& no_text(p, "valign"@, 4) ==> params.valign == "baseline"@
            &&& says(p, "spacing"@, 5, Val::Num(x)) ==> params.spacing == x
            &&& no_number(p, "spacing"@, 5) ==> params.spacing == 0x3ff0_0000_0000_0000
            &&& says(p, "direction"@, 6, Val::Str(t)) ==> params.direction == t
            &&& no_text(p, "direction"@, 6) ==> params.direction.len() == 0
            &&& says(p, "language"@, 7, Val::Str(t)) ==> params.language == t
            &&& no_text(p, "language"@, 7) ==> params.language.len() == 0
            &&& says(p, "script"@, 8, Val::Str(t)) ==> params.script == t
            &&& no_text(p, "script"@, 8) ==> params.script.len() == 0
            &&& fine.r == params.size
            &&& settings_of(s, p.scope, fine)
        },
{
    lemma_shape_names();
    reveal_strlit("");
    lemma_text(p, "text"@, 0);
    lemma_number(p, "size"@, 1);
    lemma_text(p, "halign"@, 3);
    lemma_text(p, "valign"@, 4);
    lemma_number(p, "spacing"@, 5);
    lemma_text(p, "direction"@, 6);
    lemma_text(p, "language"@, 7);
    lemma_text(p, "script"@, 8);
}

/// What is imported, and what a surface is made from, is the file that is given by a text.
pub proof fn law_files(s: State, p: Passed, t: Seq<char>, f: spec_fn(FloatOp, u64, u64) -> u64)
    ensures
        made(s, "import"@, p, f).0 matches Made::Import { file } && {
            &&& says(p, "file"@, 0, Val::Str(t)) ==> file == Some(t)
            &&& no_text(p, "file"@, 0) ==> file is None
        },
        made(s, "surface"@, p, f).0 matches Made::Surface { file, center } && {
            &&& says(p, "file"@, 0, Val::Str(t)) ==> file == Some(t)
            &&& no_text(p, "file"@, 0) ==> file is None
            &&& center <==> says(p, "center"@, 1, Val::Bool(true))
        },
{
    lemma_shape_names();
    lemma_text(p, "file"@, 0);
    law_arguments(p, "center"@, 1, Val::Bool(true));
}

/// A polygon has a point for each pair of numbers, in their order, and a loop for each list of indices; it
/// has no loops where no list of them is given.
pub proof fn law_polygon(
    s: State,
    p: Passed,
    vs: Seq<Val>,
    ps: Seq<Val>,
    f: spec_fn(FloatOp, u64, u64) -> u64,
)
    requires
        says(p, "points"@, 0, Val::List(vs)),
        forall|i: int| 0 <= i < vs.len() ==> ((#[trigger] vs[i]) matches Val::NumList(xs) && xs.len() >= 2),
        forall|i: int| 0 <= i < ps.len() ==> (#[trigger] ps[i]) is NumList,
    ensures
        made(s, "polygon"@, p, f).0 matches Made::Polygon { points, paths } && {
            &&& points.len() == vs.len()
            &&& forall|i: int|
                0 <= i < vs.len() ==> (#[trigger] points[i]).x == vs[i]->NumList_0[0] && points[i].y
                    == vs[i]->NumList_0[1]
            &&& says(p, "paths"@, 1, Val::List(ps)) ==> (paths matches Some(ls) && ls.len() == ps.len()
                && forall|i: int, j: int|
                #![trigger ls[i][j]]
                0 <= i < ps.len() && 0 <= j < ps[i]->NumList_0.len() ==> ls[i].len()
                    == ps[i]->NumList_0.len() && ls[i][j] == index_of(ps[i]->NumList_0[j]))
            &&& says(p, "paths"@, 1, Val::Undef) ==> paths is None
        },
{
    lemma_shape_names();
    law_arguments(p, "points"@, 0, Val::List(vs));
    law_arguments(p, "paths"@, 1, Val::List(ps));
    law_arguments(p, "paths"@, 1, Val::Undef);
    lemma_points2(vs, vs.len());
    lemma_loops(ps, ps.len());
}

proof fn lemma_points2(vs: Seq<Val>, n: nat)
    requires
        n <= vs.len(),
        forall|i: int| 0 <= i < vs.len() ==> ((#[trigger] vs[i]) matches Val::NumList(xs) && xs.len() >= 2),
    ensures
        points2(vs, n).len() == n,
        forall|i: int|
            0 <= i < n ==> (#[trigger] points2(vs, n)[i]) == (Vec2 {
                x: vs[i]->NumList_0[0],
                y: vs[i]->NumList_0[1],
            }),
    decreases n,
{
    if n > 0 {
        lemma_points2(vs, (n - 1) as nat);
        assert(vs[n - 1] is NumList);
    }
}

proof fn lemma_points3(vs: Seq<Val>, n: nat)
    requires
        n <= vs.len(),
        forall|i: int| 0 <= i < vs.len() ==> ((#[trigger] vs[i]) matches Val::NumList(xs) && xs.len() >= 3),
    ensures
        points3(vs, n).len() == n,
        forall|i: int|
            0 <= i < n ==> (#[trigger] points3(vs, n)[i]) == (Vec3 {
                x: vs[i]->NumList_0[0],
                y: vs[i]->NumList_0[1],
                z: vs[i]->NumList_0[2],
            }),
    decreases n,
{
    if n > 0 {
        lemma_points3(vs, (n - 1) as nat);
        assert(vs[n - 1] is NumList);
    }
}

proof fn lemma_loops(vs: Seq<Val>, n: nat)
    requires
        n <= vs.len(),
        forall|i: int| 0 <= i < vs.len() ==> (#[trigger] vs[i]) is NumList,
    ensures
        loops(vs, n).len() == n,
        forall|i: int| 0 <= i < n ==> (#[trigger] loops(vs, n)[i]) == indices_of(vs[i]->NumList_0),
    decreases n,
{
    if n > 0 {
        lemma_loops(vs, (n - 1) as nat);
        assert(vs[n - 1] is NumList);
    }
}

/// A number that is finite and not below zero is the index of its whole part, and any other one no index.
pub proof fn law_indices(b: u64)
    ensures
        is_finite(b) && b < SIGN && crate::num::whole_part(b) < u32::MAX ==> index_of(b)
            == crate::num::whole_part(b),
        !is_finite(b) || num_lt(b, 0) ==> index_of(b) == u32::MAX,
{
    crate::num::law_unsigned_in_range(b, u32::MAX as int);
}

/// A solid has a point for each triple of numbers, in their order. Each of its faces is one of the lists of
/// indices; a list is a face exactly where all its indices are those of points.
pub proof fn law_polyhedron(
    s: State,
    p: Passed,
    vs: Seq<Val>,
    fs: Seq<Val>,
    f: spec_fn(FloatOp, u64, u64) -> u64,
)
    requires
        says(p, "points"@, 0, Val::List(vs)),
        forall|i: int| 0 <= i < vs.len() ==> ((#[trigger] vs[i]) matches Val::NumList(xs) && xs.len() >= 3),
        vs.len() < u32::MAX,
        says(p, "faces"@, 1, Val::List(fs)),
    ensures
        made(s, "polyhedron"@, p, f).0 matches Made::Polyhedron { points, faces } && {
            &&& points.len() == vs.len()
            &&& forall|i: int|
                0 <= i < vs.len() ==> (#[trigger] points[i]).x == vs[i]->NumList_0[0] && points[i].y
                    == vs[i]->NumList_0[1] && points[i].z == vs[i]->NumList_0[2]
            &&& forall|k: int, j: int|
                0 <= k < faces.len() && 0 <= j < faces[k].len() ==> (#[trigger] faces[k][j]) < points.len()
            &&& forall|k: int|
                0 <= k < fs.len() ==> ((#[trigger] fs[k]) matches Val::NumList(xs) ==> ((forall|j: int|
                    0 <= j < xs.len() ==> index_of(#[trigger] xs[j]) < points.len()) <==> faces.contains(
                    Seq::new(xs.len(), |j: int| index_of(xs[j])),
                )))
        },
{
    lemma_shape_names();
    law_arguments(p, "points"@, 0, Val::List(vs));
    law_arguments(p, "faces"@, 1, Val::List(fs));
    lemma_points3(vs, vs.len());
    let n = vs.len() as u32;
    let faces = checked_faces(fs, n, fs.len()).0;
    lemma_faces(fs, n, fs.len());
    assert forall|k: int| 0 <= k < fs.len() implies ((#[trigger] fs[k]) matches Val::NumList(xs) ==> ((forall|
        j: int,
    |
        0 <= j < xs.len() ==> index_of(#[trigger] xs[j]) < n) <==> faces.contains(
        Seq::new(xs.len(), |j: int| index_of(xs[j])),
    ))) by {
        if fs[k] is NumList {
            let xs = fs[k]->NumList_0;
            let face = Seq::new(xs.len(), |j: int| index_of(xs[j]));
            assert(face =~= indices_of(xs));
            if faces.contains(face) {
                let m = choose|m: int| 0 <= m < faces.len() && faces[m] == face;
                assert forall|j: int| 0 <= j < xs.len() implies index_of(#[trigger] xs[j]) < n by {
                    assert(faces[m][j] == index_of(xs[j]));
                }
            }
        }
    }
}

proof fn lemma_bad(xs: Seq<u64>, n: u32, j: int)
    requires
        0 <= j,
    ensures
        match bad_from(xs, n, j) {
            Some(k) => j <= k < xs.len() && index_of(xs[k]) >= n && forall|i: int|
                j <= i < k ==> index_of(#[trigger] xs[i]) < n,
            None => forall|i: int| j <= i < xs.len() ==> index_of(#[trigger] xs[i]) < n,
        },
    decreases xs.len() - j,
{
    if j < xs.len() && index_of(xs[j]) < n {
        lemma_bad(xs, n, j + 1);
    }
}

proof fn lemma_faces(vs: Seq<Val>, n: u32, k: nat)
    requires
        k <= vs.len(),
    ensures
        ({
            let faces = checked_faces(vs, n, k).0;
            &&& forall|m: int, j: int|
                0 <= m < faces.len() && 0 <= j < faces[m].len() ==> (#[trigger] faces[m][j]) < n
            &&& forall|i: int|
                0 <= i < k ==> ((#[trigger] vs[i]) matches Val::NumList(xs) ==> (forall|j: int|
                    0 <= j < xs.len() ==> index_of(#[trigger] xs[j]) < n) ==> faces.contains(
                    indices_of(xs),
                ))
        }),
    decreases k,
{
    if k > 0 {
        lemma_faces(vs, n, (k - 1) as nat);
        let before = checked_faces(vs, n, (k - 1) as nat).0;
        let faces = checked_faces(vs, n, k).0;
        if vs[k - 1] is NumList {
            lemma_bad(vs[k - 1]->NumList_0, n, 0);
        }
        assert forall|i: int| 0 <= i < k implies ((#[trigger] vs[i]) matches Val::NumList(xs) ==> (forall|
            j: int,
        |
            0 <= j < xs.len() ==> index_of(#[trigger] xs[j]) < n) ==> faces.contains(indices_of(xs))) by {
            if vs[i] is NumList {
                let face = indices_of(vs[i]->NumList_0);
                if i < k - 1 && before.contains(face) {
                    let m = choose|m: int| 0 <= m < before.len() && before[m] == face;
                    assert(faces[m] == face);
                } else if i == k - 1 && faces.len() > before.len() {
                    assert(faces[faces.len() - 1] == face);
                }
            }
        }
    }
}

/// A face is dropped with a warning exactly where its first index that is no point's is a number that is
/// finite and not below zero; the warning says which index it was, and where it stood.
pub proof fn law_dropped_faces(vs: Seq<Val>, n: u32, k: nat, xs: Seq<u64>, j: int)
    requires
        0 < k <= vs.len(),
        vs[k - 1] == Val::NumList(xs),
        0 <= j < xs.len(),
        index_of(xs[j]) >= n,
        forall|i: int| 0 <= i < j ==> index_of(#[trigger] xs[i]) < n,
    ensures
        checked_faces(vs, n, k).0 == checked_faces(vs, n, (k - 1) as nat).0,
        is_finite(xs[j]) && !num_lt(xs[j], 0) ==> checked_faces(vs, n, k).1 == checked_faces(
            vs,
            n,
            (k - 1) as nat,
        ).1.push(
            Line::Warning(
                "Point index "@ + decimal(index_of(xs[j]) as nat) + " is out of bounds (from faces["@
                    + decimal((k - 1) as nat) + "]["@ + decimal(j as nat) + "])"@,
            ),
        ),
        !is_finite(xs[j]) || num_lt(xs[j], 0) ==> checked_faces(vs, n, k).1 == checked_faces(
            vs,
            n,
            (k - 1) as nat,
        ).1,
{
    lemma_bad(xs, n, 0);
}

/// What is found as the smallest and the largest coordinate is so: every vertex lies between them, and both
/// are coordinates of vertices.
pub proof fn law_spans(vs: Seq<Vec3>, n: nat)
    requires
        n <= vs.len(),
        forall|i: int| 0 <= i < n ==> !is_nan((#[trigger] vs[i]).x) && !is_nan(vs[i].y),
    ensures
        forall|i: int|
            0 <= i < n ==> !num_lt((#[trigger] vs[i]).x, span_x(vs, n).0) && !num_lt(
                span_x(vs, n).1,
                vs[i].x,
            ) && !num_lt(vs[i].y, span_y(vs, n).0) && !num_lt(span_y(vs, n).1, vs[i].y),
        n > 0 ==> exists|i: int, j: int, k: int, m: int|
            #![trigger vs[i], vs[j], vs[k], vs[m]]
            0 <= i < n && 0 <= j < n && 0 <= k < n && 0 <= m < n && num_same(
                vs[i].x,
                span_x(vs, n).0,
            ) && num_same(vs[j].x, span_x(vs, n).1) && num_same(vs[k].y, span_y(vs, n).0) && num_same(
                vs[m].y,
                span_y(vs, n).1,
            ),
        !is_nan(span_x(vs, n).0),
        !is_nan(span_x(vs, n).1),
        !is_nan(span_y(vs, n).0),
        !is_nan(span_y(vs, n).1),
        n == 0 ==> span_x(vs, n) == (INF, MINUS_INF) && span_y(vs, n) == (INF, MINUS_INF),
    decreases n,
{
    if n > 0 {
        law_spans(vs, (n - 1) as nat);
        let v = vs[n - 1];
        let (a, b) = span_x(vs, (n - 1) as nat);
        let (c, d) = span_y(vs, (n - 1) as nat);
        let last = n - 1;
        let (i0, j0, k0, m0) = if n == 1 {
            (last, last, last, last)
        } else {
            choose|i: int, j: int, k: int, m: int|
                #![trigger vs[i], vs[j], vs[k], vs[m]]
                0 <= i < n - 1 && 0 <= j < n - 1 && 0 <= k < n - 1 && 0 <= m < n - 1 && num_same(
                    vs[i].x,
                    a,
                ) && num_same(vs[j].x, b) && num_same(vs[k].y, c) && num_same(vs[m].y, d)
        };
        let i = if num_lt(v.x, a) { last } else { i0 };
        let j = if num_lt(b, v.x) { last } else { j0 };
        let k = if num_lt(v.y, c) { last } else { k0 };
        let m = if num_lt(d, v.y) { last } else { m0 };
        assert(num_same(vs[i].x, span_x(vs, n).0));
        assert(num_same(vs[j].x, span_x(vs, n).1));
        assert(num_same(vs[k].y, span_y(vs, n).0));
        assert(num_same(vs[m].y, span_y(vs, n).1));
        assert(vs[i] == vs[i] && vs[j] == vs[j] && vs[k] == vs[k] && vs[m] == vs[m]);
    }
}

/// Whether two numbers are equal.
pub open spec fn num_same(a: u64, b: u64) -> bool {
    crate::num::num_eq(a, b)
}

/// A name that no shape has makes none, and is warned about.
pub proof fn law_unknown_shapes(s: State, name: Seq<char>, p: Passed, f: spec_fn(FloatOp, u64, u64) -> u64)
    requires
        name != "sphere"@,
        name != "cube"@,
        name != "cylinder"@,
        name != "polyhedron"@,
        name != "square"@,
        name != "circle"@,
        name != "polygon"@,
        name != "text"@,
        name != "import"@,
        name != "surface"@,
    ensures
        made(s, name, p, f).0 is Unknown,
        made(s, name, p, f).1 == seq![Line::Warning("Ignoring unknown module '"@ + name + "'"@)],
{
    assert(made(s, name, p, f).1 =~= seq![Line::Warning("Ignoring unknown module '"@ + name + "'"@)]);
}

}

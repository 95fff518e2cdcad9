//! Calls that native code makes back into the evaluator, with arguments that are already values.

use std::rc::Rc;

use vstd::prelude::*;

use crate::ast::{expr_child, is_special, opt_text, parts, special, Expr, ExprKind, Name, Parameter};
use crate::bind::{lemma_eval_grows, scope_res};
use crate::calls::{default_counts, default_holds, find_param, lemma_counts_alike, param_from};
use crate::chars::cat3;
use crate::console::{format_echo_pairs, opt_names, pairs_text, texts_of, too_deep, too_deep_fault};
use crate::discipline::law_run_keeps_bindings;
use crate::eval::{lemma_grown, Ctx};
use crate::host::{Answer, Reply};
use crate::intrinsics::position_of;
use crate::machine::{
    callee_base, def_from, known, named_vals, names_of, read, recursion_fault, run_ok, Code, Def,
    Job, Setup, State, Task, MAX_CALL_DEPTH,
};
use crate::message::{Error, Fault, Line, Message};
use crate::num::{unit, unit_ok, FloatOp};
use crate::run::{eval_in, host, host_ok, res, started};
use crate::schedule::val_opt;
use crate::scope::{local_function, meaning, scope_ok, Scope};
use crate::value::{vals, Val, Value};

verus! {

/// An argument that is a value.
#[derive(Debug)]
pub struct ValArg {
    pub name: Option<Name>,
    pub value: Value,
}

/// An argument that is a value, mathematically.
pub struct Given {
    pub name: Option<Seq<char>>,
    pub value: Val,
}

impl View for ValArg {
    type V = Given;

    open spec fn view(&self) -> Given {
        Given { name: opt_text(self.name), value: self.value@ }
    }
}

/// Some arguments, mathematically.
pub open spec fn givens(args: Seq<ValArg>) -> Seq<Given> {
    Seq::new(args.len(), |i: int| args[i]@)
}

/// Values matched to parameters, and what is bound beside them.
pub struct Filled {
    pub slots: Seq<Option<Val>>,
    pub extra: Seq<(Seq<char>, Val)>,
}

/// The lowest slot without a value, from `i` on.
pub open spec fn empty_from(slots: Seq<Option<Val>>, i: int) -> Option<int>
    decreases slots.len() - i,
{
    if i >= slots.len() {
        None
    } else if slots[i] is None {
        Some(i)
    } else {
        empty_from(slots, i + 1)
    }
}

/// One more argument: a positional one takes the lowest empty slot or is dropped, a named one the
/// slot of its parameter; a `$`-name or a name without a parameter is bound beside them.
pub open spec fn filled_one(params: Seq<Parameter>, m: Filled, arg: Given) -> Filled {
    match arg.name {
        None => match empty_from(m.slots, 0) {
            Some(i) => Filled { slots: m.slots.update(i, Some(arg.value)), ..m },
            None => m,
        },
        Some(name) => if special(name) {
            Filled { extra: m.extra.push((name, arg.value)), ..m }
        } else {
            match param_from(params, name, 0) {
                Some(i) => Filled { slots: m.slots.update(i, Some(arg.value)), ..m },
                None => Filled { extra: m.extra.push((name, arg.value)), ..m },
            }
        },
    }
}

/// The first `n` arguments matched to the parameters.
pub open spec fn filled(params: Seq<Parameter>, args: Seq<Given>, n: nat) -> Filled
    decreases n,
{
    if n == 0 {
        Filled { slots: Seq::new(params.len(), |i: int| None), extra: Seq::empty() }
    } else {
        filled_one(params, filled(params, args, (n - 1) as nat), args[n - 1])
    }
}

/// Some optional values, mathematically.
pub open spec fn opt_vals(vs: Seq<Option<Value>>) -> Seq<Option<Val>> {
    Seq::new(vs.len(), |i: int| val_opt(vs[i]))
}

fn find_empty(slots: &Vec<Option<Value>>) -> (r: Option<usize>)
    ensures
        match r {
            Some(i) => empty_from(opt_vals(slots@), 0) == Some(i as int) && i < slots@.len(),
            None => empty_from(opt_vals(slots@), 0) is None,
        },
{
    let ghost all = opt_vals(slots@);
    let mut i: usize = 0;
    while i < slots.len()
        invariant
            i <= slots@.len(),
            all == opt_vals(slots@),
            empty_from(all, 0) == empty_from(all, i as int),
        decreases slots@.len() - i,
    {
        if slots[i].is_none() {
            return Some(i);
        }
        i += 1;
    }
    None
}

/// Matches arguments that are values to parameters. A value for which no parameter is left is dropped, and
/// a name that no parameter has is bound beside them. What is to be said of either, and in which words,
/// is for the host, which has the parameters and the arguments: nothing is said here.
pub fn fill_slots(params: &Vec<Parameter>, args: &Vec<ValArg>) -> (r: (
    Vec<Option<Value>>,
    Vec<(Name, Value)>,
))
    ensures
        opt_vals(r.0@) == filled(params@, givens(args@), args@.len()).slots,
        named_vals(r.1@) == filled(params@, givens(args@), args@.len()).extra,
        r.0@.len() == params@.len(),
{
    let ghost all = givens(args@);
    let mut slots: Vec<Option<Value>> = Vec::new();
    let mut k: usize = 0;
    while k < params.len()
        invariant
            k <= params@.len(),
            slots@.len() == k,
            forall|j: int| 0 <= j < k ==> (#[trigger] slots@[j]) is None,
        decreases params@.len() - k,
    {
        slots.push(None);
        k += 1;
    }
    let mut extra: Vec<(Name, Value)> = Vec::new();
    assert(opt_vals(slots@) =~= filled(params@, all, 0).slots);
    assert(named_vals(extra@) =~= filled(params@, all, 0).extra);
    let mut i: usize = 0;
    while i < args.len()
        invariant
            i <= args@.len(),
            all == givens(args@),
            slots@.len() == params@.len(),
            opt_vals(slots@) == filled(params@, all, i as nat).slots,
            named_vals(extra@) == filled(params@, all, i as nat).extra,
        decreases args@.len() - i,
    {
        let arg: &ValArg = &args[i];
        assert(all[i as int] == arg@);
        let ghost before = slots@;
        let ghost extra_before = extra@;
        match &arg.name {
            None => {
                match find_empty(&slots) {
                    Some(at) => {
                        slots.set(at, Some(arg.value.clone()));
                        assert(opt_vals(slots@) =~= opt_vals(before).update(
                            at as int,
                            Some(arg.value@),
                        ));
                    },
                    None => {},
                }
            },
            Some(name) => {
                let place: Option<usize> = if is_special(name.as_str()) {
                    None
                } else {
                    find_param(params, name)
                };
                match place {
                    Some(at) => {
                        slots.set(at, Some(arg.value.clone()));
                        assert(opt_vals(slots@) =~= opt_vals(before).update(
                            at as int,
                            Some(arg.value@),
                        ));
                    },
                    None => {
                        extra.push((name.clone(), arg.value.clone()));
                        assert(named_vals(extra@) =~= named_vals(extra_before).push(
                            (name@, arg.value@),
                        ));
                    },
                }
            },
        }
        i += 1;
    }
    (slots, extra)
}

/// Evaluates the defaults of the unfilled parameters from the `i`-th on and binds those that count.
pub open spec fn plain_defaults_from(
    s: State,
    params: Seq<Parameter>,
    slots: Seq<Option<Val>>,
    i: int,
    scope: Scope,
    global: Scope,
    f: spec_fn(FloatOp, u64, u64) -> u64,
    h: spec_fn(Job, u64, Seq<Seq<char>>) -> Answer,
    n: nat,
) -> (State, Result<Scope, Fault>)
    decreases params.len() - i,
{
    if i >= params.len() {
        (s, Ok(scope))
    } else if slots[i] is Some {
        plain_defaults_from(s, params, slots, i + 1, scope, global, f, h, n)
    } else {
        let (t, r) = match params[i].default {
            Some(d) => eval_in(s, d, global, f, h, n),
            None => (s, Ok(Val::Undef)),
        };
        match r {
            Err(e) => (t, Err(e)),
            Ok(v) => if default_counts(params, slots, i) {
                let u = t.binding(scope, params[i].name@, v);
                plain_defaults_from(u, params, slots, i + 1, u.here(), global, f, h, n)
            } else {
                plain_defaults_from(t, params, slots, i + 1, scope, global, f, h, n)
            },
        }
    }
}

/// Binds the filled parameters from the `i`-th on.
pub open spec fn bind_slots(
    s: State,
    params: Seq<Parameter>,
    slots: Seq<Option<Val>>,
    i: int,
    scope: Scope,
) -> (State, Scope)
    decreases params.len() - i,
{
    if i >= params.len() {
        (s, scope)
    } else {
        match slots[i] {
            Some(v) => {
                let t = s.binding(scope, params[i].name@, v);
                bind_slots(t, params, slots, i + 1, t.here())
            },
            None => bind_slots(s, params, slots, i + 1, scope),
        }
    }
}

/// Binds named values from the `i`-th on.
pub open spec fn bind_named(s: State, vs: Seq<(Seq<char>, Val)>, i: int, scope: Scope) -> (
    State,
    Scope,
)
    decreases vs.len() - i,
{
    if i >= vs.len() {
        (s, scope)
    } else {
        let t = s.binding(scope, vs[i].0, vs[i].1);
        bind_named(t, vs, i + 1, t.here())
    }
}

/// The scope of a call with values: the defaults that count, then the arguments over them, then
/// what is bound beside the parameters.
pub open spec fn values_scope(
    s: State,
    params: Seq<Parameter>,
    m: Filled,
    caller: Scope,
    global: Scope,
    f: spec_fn(FloatOp, u64, u64) -> u64,
    h: spec_fn(Job, u64, Seq<Seq<char>>) -> Answer,
    n: nat,
) -> (State, Result<Scope, Fault>) {
    let s1 = s.frame(global, caller);
    let (s2, r) = plain_defaults_from(s1, params, m.slots, 0, s1.here(), global, f, h, n);
    match r {
        Err(e) => (s2, Err(e)),
        Ok(c) => {
            let (s3, c3) = bind_slots(s2, params, m.slots, 0, c);
            let (s4, c4) = bind_named(s3, m.extra, 0, c3);
            (s4, Ok(c4))
        },
    }
}

proof fn lemma_plain_defaults_keep_modules(
    s: State,
    params: Seq<Parameter>,
    slots: Seq<Option<Val>>,
    i: int,
    scope: Scope,
    global: Scope,
    f: spec_fn(FloatOp, u64, u64) -> u64,
    h: spec_fn(Job, u64, Seq<Seq<char>>) -> Answer,
    n: nat,
)
    ensures
        plain_defaults_from(s, params, slots, i, scope, global, f, h, n).0.modules == s.modules,
    decreases params.len() - i,
{
    if i < params.len() {
        if slots[i] is Some {
            lemma_plain_defaults_keep_modules(s, params, slots, i + 1, scope, global, f, h, n);
        } else {
            let (t, r) = match params[i].default {
                Some(d) => eval_in(s, d, global, f, h, n),
                None => (s, Ok(Val::Undef)),
            };
            match params[i].default {
                Some(d) => {
                    law_run_keeps_bindings(started(s, d, global), f, h, n);
                },
                None => {},
            }
            match r {
                Err(_) => {},
                Ok(v) => {
                    let u = t.binding(scope, params[i].name@, v);
                    lemma_plain_defaults_keep_modules(
                        u,
                        params,
                        slots,
                        i + 1,
                        u.here(),
                        global,
                        f,
                        h,
                        n,
                    );
                    lemma_plain_defaults_keep_modules(
                        t,
                        params,
                        slots,
                        i + 1,
                        scope,
                        global,
                        f,
                        h,
                        n,
                    );
                },
            }
        }
    }
}

proof fn lemma_bind_slots_keeps_modules(
    s: State,
    params: Seq<Parameter>,
    slots: Seq<Option<Val>>,
    i: int,
    scope: Scope,
)
    ensures
        bind_slots(s, params, slots, i, scope).0.modules == s.modules,
    decreases params.len() - i,
{
    if i < params.len() {
        match slots[i] {
            Some(v) => {
                let t = s.binding(scope, params[i].name@, v);
                lemma_bind_slots_keeps_modules(t, params, slots, i + 1, t.here());
            },
            None => {
                lemma_bind_slots_keeps_modules(s, params, slots, i + 1, scope);
            },
        }
    }
}

proof fn lemma_bind_named_keeps_modules(
    s: State,
    vs: Seq<(Seq<char>, Val)>,
    i: int,
    scope: Scope,
)
    ensures
        bind_named(s, vs, i, scope).0.modules == s.modules,
    decreases vs.len() - i,
{
    if i < vs.len() {
        let t = s.binding(scope, vs[i].0, vs[i].1);
        lemma_bind_named_keeps_modules(t, vs, i + 1, t.here());
    }
}

/// Binding the arguments of a call starts and ends no module.
pub proof fn lemma_values_scope_keeps_modules(
    s: State,
    params: Seq<Parameter>,
    m: Filled,
    caller: Scope,
    global: Scope,
    f: spec_fn(FloatOp, u64, u64) -> u64,
    h: spec_fn(Job, u64, Seq<Seq<char>>) -> Answer,
    n: nat,
)
    ensures
        values_scope(s, params, m, caller, global, f, h, n).0.modules == s.modules,
{
    let s1 = s.frame(global, caller);
    lemma_plain_defaults_keep_modules(s1, params, m.slots, 0, s1.here(), global, f, h, n);
    let (s2, r) = plain_defaults_from(s1, params, m.slots, 0, s1.here(), global, f, h, n);
    match r {
        Err(_) => {},
        Ok(c) => {
            lemma_bind_slots_keeps_modules(s2, params, m.slots, 0, c);
            let (s3, c3) = bind_slots(s2, params, m.slots, 0, c);
            lemma_bind_named_keeps_modules(s3, m.extra, 0, c3);
        },
    }
}

impl<'a> Ctx<'a> {
    fn bind_plain_defaults<
        F: Fn(FloatOp, u64, u64) -> u64,
        H: Fn(&Task<'a>, u64, &Vec<Name>) -> Reply,
    >(
        &mut self,
        params: &'a Vec<Parameter>,
        slots: &Vec<Option<Value>>,
        start: Scope,
        global: Scope,
        fpu: &F,
        h: &H,
        fuel: u64,
    ) -> (r: Result<Scope, Error>)
        requires
            run_ok(old(self)@),
            unit_ok(*fpu),
            host_ok(*h),
            scope_ok(old(self)@.store, start),
            scope_ok(old(self)@.store, global),
            slots@.len() == params@.len(),
        ensures
            (final(self)@, scope_res(r)) == plain_defaults_from(
                old(self)@,
                params@,
                opt_vals(slots@),
                0,
                start,
                global,
                unit(*fpu),
                host(*h),
                fuel as nat,
            ),
            r matches Ok(s) ==> scope_ok(final(self)@.store, s),
            final(self)@.store.len() >= old(self)@.store.len(),
            final(self)@.setup == old(self)@.setup,
            run_ok(final(self)@),
    {
        let ghost s0 = self@;
        let ghost all = opt_vals(slots@);
        let mut scope: Scope = start;
        let mut i: usize = 0;
        while i < params.len()
            invariant
                i <= params@.len(),
                s0 == old(self)@,
                slots@.len() == params@.len(),
                all == opt_vals(slots@),
                run_ok(self@),
                unit_ok(*fpu),
                host_ok(*h),
                scope_ok(self@.store, scope),
                scope_ok(s0.store, global),
                self@.store.len() >= s0.store.len(),
                self@.setup == s0.setup,
                plain_defaults_from(
                    self@,
                    params@,
                    all,
                    i as int,
                    scope,
                    global,
                    unit(*fpu),
                    host(*h),
                    fuel as nat,
                ) == plain_defaults_from(
                    s0,
                    params@,
                    all,
                    0,
                    start,
                    global,
                    unit(*fpu),
                    host(*h),
                    fuel as nat,
                ),
            decreases params@.len() - i,
        {
            assert(all[i as int] == val_opt(slots@[i as int]));
            if slots[i].is_none() {
                let v: Value = match &params[i].default {
                    Some(d) => {
                        proof {
                            lemma_eval_grows(
                                self@,
                                *d,
                                global,
                                unit(*fpu),
                                host(*h),
                                fuel as nat,
                            );
                        }
                        match self.eval_with_ctx(d, global, fpu, h, fuel) {
                            Ok(v) => v,
                            Err(e) => {
                                return Err(e);
                            },
                        }
                    },
                    None => Value::Undef,
                };
                proof {
                    assert forall|k: int| 0 <= k < slots@.len() implies slots@[k] is Some
                        == #[trigger] all[k] is Some by {
                        assert(all[k] == val_opt(slots@[k]));
                    }
                    lemma_counts_alike(params@, slots@, all, i as int);
                }
                if default_holds(params, slots, i) {
                    scope = self.bind_in(scope, params[i].name.clone(), v);
                }
            }
            i += 1;
        }
        Ok(scope)
    }

    fn bind_filled(&mut self, params: &'a Vec<Parameter>, slots: &Vec<Option<Value>>, start: Scope) -> (r:
        Scope)
        requires
            run_ok(old(self)@),
            scope_ok(old(self)@.store, start),
            slots@.len() == params@.len(),
        ensures
            (final(self)@, r) == bind_slots(old(self)@, params@, opt_vals(slots@), 0, start),
            scope_ok(final(self)@.store, r),
            final(self)@.store.len() >= old(self)@.store.len(),
            final(self)@.setup == old(self)@.setup,
            run_ok(final(self)@),
    {
        let ghost s0 = self@;
        let ghost all = opt_vals(slots@);
        let mut scope: Scope = start;
        let mut i: usize = 0;
        while i < params.len()
            invariant
                i <= params@.len(),
                slots@.len() == params@.len(),
                all == opt_vals(slots@),
                run_ok(self@),
                scope_ok(self@.store, scope),
                self@.store.len() >= s0.store.len(),
                self@.setup == s0.setup,
                bind_slots(self@, params@, all, i as int, scope) == bind_slots(
                    s0,
                    params@,
                    all,
                    0,
                    start,
                ),
            decreases params@.len() - i,
        {
            assert(all[i as int] == val_opt(slots@[i as int]));
            match &slots[i] {
                Some(v) => {
                    scope = self.bind_in(scope, params[i].name.clone(), v.clone());
                },
                None => {},
            }
            i += 1;
        }
        scope
    }

    /// Binds named values one after the other.
    pub(crate) fn bind_all(&mut self, vs: &Vec<(Name, Value)>, start: Scope) -> (r: Scope)
        requires
            run_ok(old(self)@),
            scope_ok(old(self)@.store, start),
        ensures
            (final(self)@, r) == bind_named(old(self)@, named_vals(vs@), 0, start),
            scope_ok(final(self)@.store, r),
            final(self)@.store.len() >= old(self)@.store.len(),
            final(self)@.setup == old(self)@.setup,
            run_ok(final(self)@),
    {
        let ghost s0 = self@;
        let ghost all = named_vals(vs@);
        let mut scope: Scope = start;
        let mut i: usize = 0;
        while i < vs.len()
            invariant
                i <= vs@.len(),
                all == named_vals(vs@),
                run_ok(self@),
                scope_ok(self@.store, scope),
                self@.store.len() >= s0.store.len(),
                self@.setup == s0.setup,
                bind_named(self@, all, i as int, scope) == bind_named(s0, all, 0, start),
            decreases vs@.len() - i,
        {
            assert(all[i as int] == (vs@[i as int].0@, vs@[i as int].1@));
            scope = self.bind_in(scope, vs[i].0.clone(), vs[i].1.clone());
            i += 1;
        }
        scope
    }

    /// The scope of a call whose arguments are values: all defaults are evaluated first, and those
    /// that count bound; then the arguments over them; then what is bound beside the parameters.
    pub fn bind_values<F: Fn(FloatOp, u64, u64) -> u64, H: Fn(&Task<'a>, u64, &Vec<Name>) -> Reply>(
        &mut self,
        params: &'a Vec<Parameter>,
        slots: &Vec<Option<Value>>,
        extra: &Vec<(Name, Value)>,
        caller: Scope,
        global: Scope,
        fpu: &F,
        h: &H,
        fuel: u64,
    ) -> (r: Result<Scope, Error>)
        requires
            run_ok(old(self)@),
            unit_ok(*fpu),
            host_ok(*h),
            scope_ok(old(self)@.store, caller),
            scope_ok(old(self)@.store, global),
            slots@.len() == params@.len(),
        ensures
            (final(self)@, scope_res(r)) == values_scope(
                old(self)@,
                params@,
                Filled { slots: opt_vals(slots@), extra: named_vals(extra@) },
                caller,
                global,
                unit(*fpu),
                host(*h),
                fuel as nat,
            ),
            r matches Ok(s) ==> scope_ok(final(self)@.store, s),
            final(self)@.store.len() >= old(self)@.store.len(),
            final(self)@.setup == old(self)@.setup,
            run_ok(final(self)@),
    {
        let fresh: Scope = self.frame(global, caller);
        match self.bind_plain_defaults(params, slots, fresh, global, fpu, h, fuel) {
            Err(e) => Err(e),
            Ok(c) => {
                let c3: Scope = self.bind_filled(params, slots, c);
                Ok(self.bind_all(extra, c3))
            },
        }
    }
}

/// The parameters of a call as its scope binds them, in the order in which they are declared.
pub open spec fn bound_vals(s: State, params: Seq<Parameter>, scope: Scope) -> Seq<Val> {
    Seq::new(
        params.len(),
        |i: int|
            match meaning(s.store, scope, params[i].name@) {
                Some(v) => v,
                None => Val::Undef,
            },
    )
}

impl<'a> Ctx<'a> {
    /// The parameters of a call as its scope binds them, in the order in which they are declared.
    pub fn bound_args(&self, params: &Vec<Parameter>, call: Scope) -> (r: Vec<Value>)
        requires
            run_ok(self@),
            scope_ok(self@.store, call),
        ensures
            vals(r@) == bound_vals(self@, params@, call),
    {
        let mut out: Vec<Value> = Vec::new();
        let mut i: usize = 0;
        let ghost all = bound_vals(self@, params@, call);
        while i < params.len()
            invariant
                i <= params@.len(),
                run_ok(self@),
                scope_ok(self@.store, call),
                all == bound_vals(self@, params@, call),
                vals(out@) =~= all.take(i as int),
            decreases params@.len() - i,
        {
            let ghost before = vals(out@);
            let v: Value = call.lookup(&self.store, params[i].name.as_str());
            assert(all[i as int] == v@);
            out.push(v);
            assert(vals(out@) =~= before.push(v@));
            i += 1;
        }
        assert(all.take(all.len() as int) =~= all);
        out
    }
}

/// A call is over: as many calls are under way as before it, however it ended.
pub open spec fn call_over(s: State, calls: u32) -> State {
    State { live_calls: calls, ..s }
}

/// A receiver fills a parameter named `this` that no argument fills.
pub open spec fn with_receiver(params: Seq<Parameter>, m: Filled, this: Option<Val>) -> Filled {
    match (this, param_from(params, "this"@, 0)) {
        (Some(v), Some(i)) => if m.slots[i] is None {
            Filled { slots: m.slots.update(i, Some(v)), ..m }
        } else {
            m
        },
        _ => m,
    }
}

/// Runs the body of a call that is under way and whose arguments are matched.
pub open spec fn run_call(
    s: State,
    params: Seq<Parameter>,
    body: Expr,
    m: Filled,
    caller: Scope,
    base: Scope,
    f: spec_fn(FloatOp, u64, u64) -> u64,
    h: spec_fn(Job, u64, Seq<Seq<char>>) -> Answer,
    n: nat,
) -> (State, Result<Val, Fault>) {
    let calls = (s.live_calls - 1) as u32;
    let (t, r) = values_scope(s, params, m, caller, base, f, h, n);
    match r {
        Err(e) => (call_over(t, calls), Err(e)),
        Ok(scope) => {
            let (u, v) = eval_in(t, body, scope, f, h, n);
            (call_over(u, calls), v)
        },
    }
}

/// A call of a value: a function of this run runs, anything else gives `undef`.
pub open spec fn invoked(
    s: State,
    callee: Val,
    args: Seq<Given>,
    caller: Scope,
    f: spec_fn(FloatOp, u64, u64) -> u64,
    h: spec_fn(Job, u64, Seq<Seq<char>>) -> Answer,
    n: nat,
) -> (State, Result<Val, Fault>) {
    match callee {
        Val::Function { closure_id, env, self_name, repr, group, bound_this } => if closure_id
            >= s.closures.len() || env.at >= s.store.len() {
            (s, Ok(Val::Undef))
        } else if s.live_calls >= MAX_CALL_DEPTH {
            (s, Err(recursion_fault(None)))
        } else {
            let code = s.closures[closure_id as int];
            let (st, base) = callee_base(s.store, callee, env, self_name, group);
            let t = State { live_calls: (s.live_calls + 1) as u32, store: st, ..s };
            let m = with_receiver(
                code.params,
                filled(code.params, args, args.len()),
                match bound_this {
                    Some(ms) => Some(Val::Object(ms)),
                    None => None,
                },
            );
            run_call(t, code.params, code.body, m, caller, base, f, h, n)
        },
        _ => (s, Ok(Val::Undef)),
    }
}

/// A call of a definition.
pub open spec fn named_call(
    s: State,
    d: Def,
    m: Filled,
    caller: Scope,
    f: spec_fn(FloatOp, u64, u64) -> u64,
    h: spec_fn(Job, u64, Seq<Seq<char>>) -> Answer,
    n: nat,
) -> (State, Result<Val, Fault>) {
    if s.live_calls >= MAX_CALL_DEPTH {
        (s, Err(recursion_fault(Some(d.name))))
    } else {
        run_call(
            State { live_calls: (s.live_calls + 1) as u32, ..s },
            d.params,
            d.body,
            m,
            caller,
            s.setup.globals[d.home as int],
            f,
            h,
            n,
        )
    }
}

/// The state with other native versions.
pub open spec fn with_natives(s: State, natives: Seq<Seq<char>>) -> State {
    State { setup: Setup { natives, ..s.setup }, ..s }
}

/// A call of a definition in which no native version stands in for a function.
pub open spec fn hushed_call(
    s: State,
    d: Def,
    m: Filled,
    caller: Scope,
    f: spec_fn(FloatOp, u64, u64) -> u64,
    h: spec_fn(Job, u64, Seq<Seq<char>>) -> Answer,
    n: nat,
) -> (State, Result<Val, Fault>) {
    let (t, r) = named_call(with_natives(s, Seq::empty()), d, m, caller, f, h, n);
    (with_natives(t, s.setup.natives), r)
}

/// Positional values as matched arguments.
pub open spec fn in_order(params: Seq<Parameter>, args: Seq<Val>) -> Filled {
    Filled {
        slots: Seq::new(
            params.len(),
            |i: int|
                if i < args.len() {
                    Some(args[i])
                } else {
                    None
                },
        ),
        extra: Seq::empty(),
    }
}

/// The definition of a name is run by the evaluator, with no native version anywhere in it.
pub open spec fn reinterpreted(
    s: State,
    name: Seq<char>,
    args: Seq<Val>,
    caller: Scope,
    f: spec_fn(FloatOp, u64, u64) -> u64,
    h: spec_fn(Job, u64, Seq<Seq<char>>) -> Answer,
    n: nat,
) -> (State, Result<Val, Fault>) {
    match def_from(s.setup.functions, name, 0) {
        None => (
            s,
            Err(
                Fault::Unimplemented(
                    "reinterpret: the named definition is not loaded \u{2014} a fab bug, the arming gate should have held"@,
                ),
            ),
        ),
        Some(d) => hushed_call(s, d, in_order(d.params, args), caller, f, h, n),
    }
}

/// What a name means at the top level of the file of a definition.
pub open spec fn meaning_beside(s: State, def: Seq<char>, name: Seq<char>) -> Option<Val> {
    match def_from(s.setup.functions, def, 0) {
        Some(d) => meaning(s.store, s.setup.globals[d.home as int], name),
        None => None,
    }
}

/// A call of a name from native code: a function of the program, else what the name means at the
/// top level of the file of the calling definition, else nothing, with a warning.
pub open spec fn called_outward(
    s: State,
    def: Seq<char>,
    name: Seq<char>,
    args: Seq<Given>,
    caller: Scope,
    f: spec_fn(FloatOp, u64, u64) -> u64,
    h: spec_fn(Job, u64, Seq<Seq<char>>) -> Answer,
    n: nat,
) -> (State, Result<Val, Fault>) {
    match def_from(s.setup.functions, name, 0) {
        Some(d) => hushed_call(s, d, filled(d.params, args, args.len()), caller, f, h, n),
        None => match meaning_beside(s, def, name) {
            Some(v) => invoked(s, v, args, caller, f, h, n),
            None => (
                s.say(Line::Warning("Ignoring unknown function '"@ + name + "'"@)),
                Ok(Val::Undef),
            ),
        },
    }
}

/// A call from native code, of a definition, of a value or of a name, leaves as many calls under way
/// as there were, whether it gives a value or fails.
pub proof fn law_native_calls_keep_the_count(
    s: State,
    d: Def,
    m: Filled,
    callee: Val,
    def: Seq<char>,
    name: Seq<char>,
    args: Seq<Given>,
    given: Seq<Val>,
    caller: Scope,
    f: spec_fn(FloatOp, u64, u64) -> u64,
    h: spec_fn(Job, u64, Seq<Seq<char>>) -> Answer,
    n: nat,
)
    ensures
        named_call(s, d, m, caller, f, h, n).0.live_calls == s.live_calls,
        hushed_call(s, d, m, caller, f, h, n).0.live_calls == s.live_calls,
        invoked(s, callee, args, caller, f, h, n).0.live_calls == s.live_calls,
        reinterpreted(s, name, given, caller, f, h, n).0.live_calls == s.live_calls,
        called_outward(s, def, name, args, caller, f, h, n).0.live_calls == s.live_calls,
{
    let quiet = with_natives(s, Seq::empty());
    assert(named_call(quiet, d, m, caller, f, h, n).0.live_calls == s.live_calls);
    match def_from(s.setup.functions, name, 0) {
        Some(x) => {
            assert(named_call(
                quiet,
                x,
                filled(x.params, args, args.len()),
                caller,
                f,
                h,
                n,
            ).0.live_calls == s.live_calls);
            assert(named_call(
                quiet,
                x,
                in_order(x.params, given),
                caller,
                f,
                h,
                n,
            ).0.live_calls == s.live_calls);
        },
        None => {},
    }
}

impl<'a> Ctx<'a> {
    fn end_call(&mut self, calls: u32)
        requires
            run_ok(old(self)@),
        ensures
            final(self)@ == call_over(old(self)@, calls),
            run_ok(final(self)@),
    {
        let ghost before = self@;
        self.live_calls = calls;
        proof {
            lemma_grown(before, self@);
        }
    }

    fn run_matched<F: Fn(FloatOp, u64, u64) -> u64, H: Fn(&Task<'a>, u64, &Vec<Name>) -> Reply>(
        &mut self,
        params: &'a Vec<Parameter>,
        body: &'a Expr,
        slots: &Vec<Option<Value>>,
        extra: &Vec<(Name, Value)>,
        caller: Scope,
        base: Scope,
        fpu: &F,
        h: &H,
        fuel: u64,
    ) -> (r: Result<Value, Error>)
        requires
            run_ok(old(self)@),
            unit_ok(*fpu),
            host_ok(*h),
            scope_ok(old(self)@.store, caller),
            scope_ok(old(self)@.store, base),
            slots@.len() == params@.len(),
            old(self)@.live_calls > 0,
        ensures
            (final(self)@, res(r)) == run_call(
                old(self)@,
                params@,
                *body,
                Filled { slots: opt_vals(slots@), extra: named_vals(extra@) },
                caller,
                base,
                unit(*fpu),
                host(*h),
                fuel as nat,
            ),
            run_ok(final(self)@),
    {
        let calls: u32 = self.live_calls - 1;
        match self.bind_values(params, slots, extra, caller, base, fpu, h, fuel) {
            Err(e) => {
                self.end_call(calls);
                Err(e)
            },
            Ok(scope) => {
                let r: Result<Value, Error> = self.eval_with_ctx(body, scope, fpu, h, fuel);
                self.end_call(calls);
                r
            },
        }
    }

    /// Calls a value: a function of this run runs, anything else gives `undef`. Nothing is said of
    /// arguments that match no parameter: see [`fill_slots`].
    pub fn invoke_function_value<
        F: Fn(FloatOp, u64, u64) -> u64,
        H: Fn(&Task<'a>, u64, &Vec<Name>) -> Reply,
    >(
        &mut self,
        caller: Scope,
        callee: &Value,
        args: &Vec<ValArg>,
        fpu: &F,
        h: &H,
        fuel: u64,
    ) -> (r: Result<Value, Error>)
        requires
            run_ok(old(self)@),
            unit_ok(*fpu),
            host_ok(*h),
            scope_ok(old(self)@.store, caller),
        ensures
            (final(self)@, res(r)) == invoked(
                old(self)@,
                callee@,
                givens(args@),
                caller,
                unit(*fpu),
                host(*h),
                fuel as nat,
            ),
            run_ok(final(self)@),
    {
        match callee {
            Value::Function { closure_id, env, self_name, group, bound_this, .. } => {
                if *closure_id >= self.closures.len() || env.at >= self.store.nodes.len() {
                    return Ok(Value::Undef);
                }
                if self.live_calls >= MAX_CALL_DEPTH {
                    return Err(
                        Error::Eval(
                            "Recursion detected calling function (over 1000000 calls in flight)".to_owned(),
                        ),
                    );
                }
                let params: &'a Vec<Parameter> = self.closures[*closure_id].params;
                let body: &'a Expr = self.closures[*closure_id].body;
                assert(self@.closures[*closure_id as int] == self.closures@[*closure_id as int]@);
                let ghost before = self@;
                self.live_calls = self.live_calls + 1;
                proof {
                    lemma_grown(before, self@);
                }
                let base: Scope = self.base_of(callee, *env, self_name, group);
                let (mut slots, extra) = fill_slots(params, args);
                let ghost matched = slots@;
                match bound_this {
                    Some(o) => {
                        let this: Name = Rc::new("this".to_owned());
                        match find_param(params, &this) {
                            Some(i) => {
                                assert(opt_vals(matched)[i as int] == val_opt(matched[i as int]));
                                if slots[i].is_none() {
                                    slots.set(i, Some(Value::Object(o.clone())));
                                    assert(opt_vals(slots@) =~= opt_vals(matched).update(
                                        i as int,
                                        Some(Value::Object(*o)@),
                                    ));
                                }
                            },
                            None => {},
                        }
                    },
                    None => {},
                }
                self.run_matched(params, body, &slots, &extra, caller, base, fpu, h, fuel)
            },
            _ => Ok(Value::Undef),
        }
    }

    fn call_def<F: Fn(FloatOp, u64, u64) -> u64, H: Fn(&Task<'a>, u64, &Vec<Name>) -> Reply>(
        &mut self,
        at: usize,
        slots: &Vec<Option<Value>>,
        extra: &Vec<(Name, Value)>,
        caller: Scope,
        fpu: &F,
        h: &H,
        fuel: u64,
    ) -> (r: Result<Value, Error>)
        requires
            run_ok(old(self)@),
            unit_ok(*fpu),
            host_ok(*h),
            scope_ok(old(self)@.store, caller),
            at < old(self).functions@.len(),
            slots@.len() == old(self).functions@[at as int].params@.len(),
        ensures
            (final(self)@, res(r)) == named_call(
                old(self)@,
                old(self).functions@[at as int]@,
                Filled { slots: opt_vals(slots@), extra: named_vals(extra@) },
                caller,
                unit(*fpu),
                host(*h),
                fuel as nat,
            ),
            run_ok(final(self)@),
    {
        let name: &'a Name = self.functions[at].name;
        let params: &'a Vec<Parameter> = self.functions[at].params;
        let body: &'a Expr = self.functions[at].body;
        let home: usize = self.functions[at].home;
        assert(self@.setup.functions[at as int] == self.functions@[at as int]@);
        if self.live_calls >= MAX_CALL_DEPTH {
            return Err(
                Error::Eval(cat3("Recursion detected calling function '", name.as_str(), "'")),
            );
        }
        let ghost before = self@;
        self.live_calls = self.live_calls + 1;
        proof {
            lemma_grown(before, self@);
        }
        let base: Scope = self.globals[home];
        assert(self@.setup.globals[home as int] == base);
        self.run_matched(params, body, slots, extra, caller, base, fpu, h, fuel)
    }

    fn call_hushed<F: Fn(FloatOp, u64, u64) -> u64, H: Fn(&Task<'a>, u64, &Vec<Name>) -> Reply>(
        &mut self,
        at: usize,
        slots: &Vec<Option<Value>>,
        extra: &Vec<(Name, Value)>,
        caller: Scope,
        fpu: &F,
        h: &H,
        fuel: u64,
    ) -> (r: Result<Value, Error>)
        requires
            run_ok(old(self)@),
            unit_ok(*fpu),
            host_ok(*h),
            scope_ok(old(self)@.store, caller),
            at < old(self).functions@.len(),
            slots@.len() == old(self).functions@[at as int].params@.len(),
        ensures
            (final(self)@, res(r)) == hushed_call(
                old(self)@,
                old(self).functions@[at as int]@,
                Filled { slots: opt_vals(slots@), extra: named_vals(extra@) },
                caller,
                unit(*fpu),
                host(*h),
                fuel as nat,
            ),
            run_ok(final(self)@),
    {
        let ghost before = self@;
        let mut natives: Vec<Name> = Vec::new();
        std::mem::swap(&mut self.natives, &mut natives);
        proof {
            assert(names_of(self.natives@) =~= Seq::<Seq<char>>::empty());
            lemma_renatived(before, self@);
        }
        let r: Result<Value, Error> = self.call_def(at, slots, extra, caller, fpu, h, fuel);
        let ghost after = self@;
        std::mem::swap(&mut self.natives, &mut natives);
        proof {
            lemma_renatived(after, self@);
        }
        r
    }

    /// Runs the definition of a name in the evaluator, with no native version anywhere in it.
    pub fn reinterpret_named<
        F: Fn(FloatOp, u64, u64) -> u64,
        H: Fn(&Task<'a>, u64, &Vec<Name>) -> Reply,
    >(&mut self, caller: Scope, name: &Name, args: &Vec<Value>, fpu: &F, h: &H, fuel: u64) -> (r:
        Result<Value, Error>)
        requires
            run_ok(old(self)@),
            unit_ok(*fpu),
            host_ok(*h),
            scope_ok(old(self)@.store, caller),
        ensures
            (final(self)@, res(r)) == reinterpreted(
                old(self)@,
                name@,
                vals(args@),
                caller,
                unit(*fpu),
                host(*h),
                fuel as nat,
            ),
            run_ok(final(self)@),
    {
        let at: usize = match position_of(&self.functions, name) {
            Some(i) => i,
            None => {
                return Err(
                    Error::Unimplemented(
                        "reinterpret: the named definition is not loaded \u{2014} a fab bug, the arming gate should have held".to_owned(),
                    ),
                );
            },
        };
        let params: &'a Vec<Parameter> = self.functions[at].params;
        let slots: Vec<Option<Value>> = slots_in_order(params, args);
        let extra: Vec<(Name, Value)> = Vec::new();
        assert(named_vals(extra@) =~= Seq::<(Seq<char>, Val)>::empty());
        self.call_hushed(at, &slots, &extra, caller, fpu, h, fuel)
    }

    /// Calls a name from native code that stands in for the definition `def`: a function of the
    /// program; else what the name means at the top level of the file of `def`; else nothing, with
    /// a warning. Nothing is said of arguments that match no parameter: see [`fill_slots`].
    pub fn call_named_outward<
        F: Fn(FloatOp, u64, u64) -> u64,
        H: Fn(&Task<'a>, u64, &Vec<Name>) -> Reply,
    >(
        &mut self,
        caller: Scope,
        def: &Name,
        name: &Name,
        args: &Vec<ValArg>,
        fpu: &F,
        h: &H,
        fuel: u64,
    ) -> (r: Result<Value, Error>)
        requires
            run_ok(old(self)@),
            unit_ok(*fpu),
            host_ok(*h),
            scope_ok(old(self)@.store, caller),
        ensures
            (final(self)@, res(r)) == called_outward(
                old(self)@,
                def@,
                name@,
                givens(args@),
                caller,
                unit(*fpu),
                host(*h),
                fuel as nat,
            ),
            run_ok(final(self)@),
    {
        match position_of(&self.functions, name) {
            Some(at) => {
                let params: &'a Vec<Parameter> = self.functions[at].params;
                let (slots, extra) = fill_slots(params, args);
                return self.call_hushed(at, &slots, &extra, caller, fpu, h, fuel);
            },
            None => {},
        }
        let bound: Option<Value> = match position_of(&self.functions, def) {
            Some(at) => {
                let home: usize = self.functions[at].home;
                assert(self@.setup.functions[at as int] == self.functions@[at as int]@);
                let base: Scope = self.globals[home];
                assert(self@.setup.globals[home as int] == base);
                base.lookup_opt(&self.store, name.as_str())
            },
            None => None,
        };
        match bound {
            Some(v) => self.invoke_function_value(caller, &v, args, fpu, h, fuel),
            None => {
                self.warn(cat3("Ignoring unknown function '", name.as_str(), "'"));
                Ok(Value::Undef)
            },
        }
    }
}

proof fn lemma_renatived(a: State, b: State)
    requires
        run_ok(a),
        b.store == a.store,
        b.tasks == a.tasks,
        b.setup.globals == a.setup.globals,
        b.setup.functions == a.setup.functions,
    ensures
        run_ok(b),
{
}

fn slots_in_order(params: &Vec<Parameter>, args: &Vec<Value>) -> (r: Vec<Option<Value>>)
    ensures
        opt_vals(r@) == in_order(params@, vals(args@)).slots,
        r@.len() == params@.len(),
{
    let mut out: Vec<Option<Value>> = Vec::new();
    let ghost all = in_order(params@, vals(args@)).slots;
    let mut i: usize = 0;
    while i < params.len()
        invariant
            i <= params@.len(),
            out@.len() == i,
            all == in_order(params@, vals(args@)).slots,
            opt_vals(out@) =~= all.take(i as int),
        decreases params@.len() - i,
    {
        let ghost before = opt_vals(out@);
        let one: Option<Value> = if i < args.len() {
            Some(args[i].clone())
        } else {
            None
        };
        assert(all[i as int] == val_opt(one));
        out.push(one);
        assert(opt_vals(out@) =~= before.push(val_opt(one)));
        i += 1;
    }
    assert(all.take(all.len() as int) =~= all);
    out
}

/// Where a path of positions leads from an expression.
pub open spec fn at_path(e: Expr, path: Seq<usize>, i: int) -> Option<Expr>
    decreases path.len() - i,
{
    if i >= path.len() {
        Some(e)
    } else if path[i] < parts(e).len() {
        at_path(parts(e)[path[i] as int], path, i + 1)
    } else {
        None
    }
}

/// A function value made from a literal inside a definition: its code is registered anew, and its
/// scope is a fresh frame below the definition's file with the captured names bound.
pub open spec fn minted(
    s: State,
    def: Seq<char>,
    path: Seq<usize>,
    self_name: Option<Seq<char>>,
    captures: Seq<(Seq<char>, Val)>,
) -> (State, Result<Val, Fault>) {
    match def_from(s.setup.functions, def, 0) {
        None => (
            s,
            Err(
                Fault::Unimplemented(
                    "mint: the named definition is not loaded \u{2014} a fab bug, the arming gate should have held"@,
                ),
            ),
        ),
        Some(d) => match at_path(d.body, path, 0) {
            None => (
                s,
                Err(
                    Fault::Unimplemented(
                        "mint: the path walks off the proven definition \u{2014} a fab bug, not a model error"@,
                    ),
                ),
            ),
            Some(node) => match node.kind {
                ExprKind::FunctionLiteral { params, body, repr } => {
                    let t = (State {
                        closures: s.closures.push(Code { params: params@, body: *body }),
                        ..s
                    }).child(s.setup.globals[d.home as int]);
                    let (u, env) = bind_named(t, captures, 0, t.here());
                    (
                        u,
                        Ok(
                            Val::Function {
                                closure_id: s.closures.len() as usize,
                                env,
                                self_name,
                                repr: repr@,
                                group: None,
                                bound_this: None,
                            },
                        ),
                    )
                },
                _ => (
                    s,
                    Err(
                        Fault::Unimplemented(
                            "mint: the path addresses a non-literal \u{2014} a fab bug, not a model error"@,
                        ),
                    ),
                ),
            },
        },
    }
}

fn walk_path<'a>(root: &'a Expr, path: &Vec<usize>) -> (r: Option<&'a Expr>)
    ensures
        match r {
            Some(e) => at_path(*root, path@, 0) == Some(*e),
            None => at_path(*root, path@, 0) is None,
        },
{
    let mut node: &'a Expr = root;
    let mut i: usize = 0;
    while i < path.len()
        invariant
            i <= path@.len(),
            at_path(*root, path@, 0) == at_path(*node, path@, i as int),
        decreases path@.len() - i,
    {
        match expr_child(node, path[i]) {
            Some(c) => {
                node = c;
            },
            None => {
                return None;
            },
        }
        i += 1;
    }
    Some(node)
}

impl<'a> Ctx<'a> {
    /// Makes a function value from the literal at a path inside a definition.
    pub fn mint_function_literal(
        &mut self,
        def: &Name,
        path: &Vec<usize>,
        self_name: Option<Name>,
        captures: &Vec<(Name, Value)>,
    ) -> (r: Result<Value, Error>)
        requires
            run_ok(old(self)@),
        ensures
            (final(self)@, res(r)) == minted(
                old(self)@,
                def@,
                path@,
                opt_text(self_name),
                named_vals(captures@),
            ),
            run_ok(final(self)@),
    {
        let at: usize = match position_of(&self.functions, def) {
            Some(i) => i,
            None => {
                return Err(
                    Error::Unimplemented(
                        "mint: the named definition is not loaded \u{2014} a fab bug, the arming gate should have held".to_owned(),
                    ),
                );
            },
        };
        let root: &'a Expr = self.functions[at].body;
        let home: usize = self.functions[at].home;
        assert(self@.setup.functions[at as int] == self.functions@[at as int]@);
        let node: &'a Expr = match walk_path(root, path) {
            Some(e) => e,
            None => {
                return Err(
                    Error::Unimplemented(
                        "mint: the path walks off the proven definition \u{2014} a fab bug, not a model error".to_owned(),
                    ),
                );
            },
        };
        match &node.kind {
            ExprKind::FunctionLiteral { params, body, repr } => {
                let closure_id: usize = self.add_closure(params, body);
                let base: Scope = self.globals[home];
                assert(self@.setup.globals[home as int] == base);
                let fresh: Scope = self.child(base);
                let env: Scope = self.bind_all(captures, fresh);
                Ok(
                    Value::Function {
                        closure_id,
                        env,
                        self_name,
                        repr: repr.clone(),
                        group: None,
                        bound_this: None,
                    },
                )
            },
            _ => Err(
                Error::Unimplemented(
                    "mint: the path addresses a non-literal \u{2014} a fab bug, not a model error".to_owned(),
                ),
            ),
        }
    }
}

/// How a function call of native code ends: with a value, or as a call of a builtin, which the
/// host runs on the values of the arguments.
#[derive(Debug)]
pub enum FnOutcome {
    Value(Value),
    Builtin,
}

/// How a function call of native code ends, mathematically.
pub enum FnEnd {
    Value(Val),
    Builtin,
}

/// The end of a call, or why there is none.
pub open spec fn fn_res(r: Result<FnOutcome, Error>) -> Result<FnEnd, Fault> {
    match r {
        Ok(FnOutcome::Value(v)) => Ok(FnEnd::Value(v@)),
        Ok(FnOutcome::Builtin) => Ok(FnEnd::Builtin),
        Err(e) => Err(e@),
    }
}

/// A value as the end of a call.
pub open spec fn as_end(r: Result<Val, Fault>) -> Result<FnEnd, Fault> {
    match r {
        Ok(v) => Ok(FnEnd::Value(v)),
        Err(e) => Err(e),
    }
}

/// A function call of native code in a module: a function value bound below the top level; else a
/// function of the program; else nothing where the name reads files; else a builtin; else `undef`
/// with a warning where the name means nothing. A name that means another value is not called.
pub open spec fn fn_called(
    s: State,
    name: Seq<char>,
    args: Seq<Given>,
    scope: Scope,
    file_builtins: Seq<Seq<char>>,
    f: spec_fn(FloatOp, u64, u64) -> u64,
    h: spec_fn(Job, u64, Seq<Seq<char>>) -> Answer,
    n: nat,
) -> (State, Result<FnEnd, Fault>) {
    let local = local_function(s.store, scope, name);
    let def = def_from(s.setup.functions, name, 0);
    if local is Some {
        let (t, r) = invoked(s, local->Some_0, args, scope, f, h, n);
        (t, as_end(r))
    } else if def is Some {
        let d = def->Some_0;
        let (t, r) = named_call(s, d, filled(d.params, args, args.len()), scope, f, h, n);
        (t, as_end(r))
    } else if known(file_builtins, name) {
        (
            s,
            Err(
                Fault::Unimplemented(
                    "a file-reading builtin in a compiled body \u{2014} re-interpreting"@,
                ),
            ),
        )
    } else if known(s.setup.builtins, name) {
        (
            State { impure_reads: crate::host::reads_after(name, s.impure_reads), ..s },
            Ok(FnEnd::Builtin),
        )
    } else {
        let (m, t) = read(s, scope, name);
        if m is None || m == Some(Val::Undef) {
            (
                t.say(Line::Warning("Ignoring unknown function '"@ + name + "'"@)),
                Ok(FnEnd::Value(Val::Undef)),
            )
        } else {
            (
                t,
                Err(
                    Fault::Unimplemented(
                        "a value-typed callee in a compiled body \u{2014} re-interpreting"@,
                    ),
                ),
            )
        }
    }
}

/// A function call of native code in a module leaves as many calls under way as there were, whether
/// it gives a value or fails.
pub proof fn law_function_calls_keep_the_count(
    s: State,
    name: Seq<char>,
    args: Seq<Given>,
    scope: Scope,
    file_builtins: Seq<Seq<char>>,
    f: spec_fn(FloatOp, u64, u64) -> u64,
    h: spec_fn(Job, u64, Seq<Seq<char>>) -> Answer,
    n: nat,
)
    ensures
        fn_called(s, name, args, scope, file_builtins, f, h, n).0.live_calls == s.live_calls,
{
}

fn value_outcome(r: Result<Value, Error>) -> (o: Result<FnOutcome, Error>)
    ensures
        fn_res(o) == as_end(res(r)),
{
    match r {
        Ok(v) => Ok(FnOutcome::Value(v)),
        Err(e) => Err(e),
    }
}

impl<'a> Ctx<'a> {
    /// A function call of native code in a module whose scope is `scope`. Nothing is said of
    /// arguments that match no parameter: see [`fill_slots`].
    pub fn call_fn<F: Fn(FloatOp, u64, u64) -> u64, H: Fn(&Task<'a>, u64, &Vec<Name>) -> Reply>(
        &mut self,
        name: &Name,
        args: &Vec<ValArg>,
        scope: Scope,
        file_builtins: &Vec<Name>,
        fpu: &F,
        h: &H,
        fuel: u64,
    ) -> (r: Result<FnOutcome, Error>)
        requires
            run_ok(old(self)@),
            unit_ok(*fpu),
            host_ok(*h),
            scope_ok(old(self)@.store, scope),
        ensures
            (final(self)@, fn_res(r)) == fn_called(
                old(self)@,
                name@,
                givens(args@),
                scope,
                names_of(file_builtins@),
                unit(*fpu),
                host(*h),
                fuel as nat,
            ),
            run_ok(final(self)@),
    {
        match scope.lookup_local_function(&self.store, name.as_str()) {
            Some(callee) => {
                return value_outcome(
                    self.invoke_function_value(scope, &callee, args, fpu, h, fuel),
                );
            },
            None => {},
        }
        match position_of(&self.functions, name) {
            Some(at) => {
                let params: &'a Vec<Parameter> = self.functions[at].params;
                let (slots, extra) = fill_slots(params, args);
                return value_outcome(self.call_def(at, &slots, &extra, scope, fpu, h, fuel));
            },
            None => {},
        }
        if crate::schedule::is_known(file_builtins, name) {
            return Err(
                Error::Unimplemented(
                    "a file-reading builtin in a compiled body \u{2014} re-interpreting".to_owned(),
                ),
            );
        }
        if crate::schedule::is_known(&self.builtins, name) {
            let ghost before = self@;
            if crate::chars::same(name.as_str(), "parent_module") && self.impure_reads < u64::MAX {
                self.impure_reads = self.impure_reads + 1;
            }
            proof {
                lemma_grown(before, self@);
            }
            return Ok(FnOutcome::Builtin);
        }
        let ghost before = self@;
        let found: Option<Value> = self.captures.read(&self.store, scope, name.as_str());
        proof {
            assert(self@ == read(before, scope, name@).1);
            lemma_grown(before, self@);
        }
        let nothing: bool = match &found {
            None => true,
            Some(Value::Undef) => true,
            _ => false,
        };
        if nothing {
            self.warn(cat3("Ignoring unknown function '", name.as_str(), "'"));
            return Ok(FnOutcome::Value(Value::Undef));
        }
        Err(
            Error::Unimplemented(
                "a value-typed callee in a compiled body \u{2014} re-interpreting".to_owned(),
            ),
        )
    }
}

impl<'a> Ctx<'a> {
    /// An `echo` of native code: puts the line of its values on the console. `texts` are the texts of
    /// the values.
    pub fn echo(&mut self, names: &Vec<Option<Name>>, vs: &Vec<Value>, texts: &Vec<String>) -> (r: Result<
        (),
        Error,
    >)
        requires
            run_ok(old(self)@),
            names@.len() == texts@.len(),
        ensures
            match r {
                Ok(()) => !too_deep(vals(vs@)) && final(self)@ == (State {
                    log: old(self)@.log.push(
                        Line::Echo(
                            pairs_text(opt_names(names@), texts_of(texts@), names@.len()),
                        ),
                    ),
                    ..old(self)@
                }),
                Err(e) => too_deep(vals(vs@)) && e@ == too_deep_fault() && final(self)@ == old(self)@,
            },
            run_ok(final(self)@),
    {
        match format_echo_pairs(names, vs, texts) {
            Ok(line) => {
                self.say(Message::Echo(line));
                Ok(())
            },
            Err(e) => Err(e),
        }
    }
}

/// A call with values matches them to the parameters as the evaluator matches the expressions that they are the values
/// of: the same parameters are filled, each with the value of what fills it, and the same names are bound beside them.
pub proof fn law_values_match_as_expressions(
    params: Seq<Parameter>,
    args: Seq<crate::ast::Arg>,
    given: Seq<Given>,
    n: nat,
    value: spec_fn(Expr) -> Val,
)
    requires
        n <= args.len(),
        given.len() == args.len(),
        forall|i: int|
            0 <= i < args.len() ==> (#[trigger] given[i]).value == value(args[i].value) && given[i].name
                == crate::ast::opt_text(args[i].name),
    ensures
        ({
            let m = crate::calls::matched(params, args, n);
            let v = filled(params, given, n);
            &&& v.slots.len() == params.len() && m.slots.len() == params.len()
            &&& forall|i: int|
                0 <= i < params.len() ==> match #[trigger] m.slots[i] {
                    Some(e) => v.slots[i] == Some(value(e)),
                    None => v.slots[i] is None,
                }
            &&& v.extra.len() == m.extra.len()
            &&& forall|i: int|
                0 <= i < m.extra.len() ==> #[trigger] v.extra[i] == (m.extra[i].0, value(m.extra[i].1))
        }),
    decreases n,
{
    if n > 0 {
        law_values_match_as_expressions(params, args, given, (n - 1) as nat, value);
        let m = crate::calls::matched(params, args, (n - 1) as nat);
        let v = filled(params, given, (n - 1) as nat);
        lemma_same_free(m.slots, v.slots, 0);
        assert(given[n - 1].value == value(args[n - 1].value));
        if let Some(name) = given[n - 1].name {
            lemma_param_place(params, name, 0);
        }
    }
}

proof fn lemma_same_free(a: Seq<Option<Expr>>, b: Seq<Option<Val>>, i: int)
    requires
        0 <= i,
        a.len() == b.len(),
        forall|k: int| 0 <= k < a.len() ==> ((#[trigger] a[k]) is Some <==> b[k] is Some),
    ensures
        crate::calls::unfilled_from(a, i) == empty_from(b, i),
        empty_from(b, i) matches Some(k) ==> i <= k < b.len(),
    decreases a.len() - i,
{
    if i < a.len() && a[i] is Some {
        lemma_same_free(a, b, i + 1);
    }
}

proof fn lemma_param_place(params: Seq<Parameter>, name: Seq<char>, i: int)
    requires
        0 <= i,
    ensures
        param_from(params, name, i) matches Some(k) ==> i <= k < params.len() && params[k].name@ == name,
    decreases params.len() - i,
{
    if i < params.len() && params[i].name@ != name {
        lemma_param_place(params, name, i + 1);
    }
}

/// In the scope of a call each parameter that is filled means its value, and no other name means anything else than
/// before.
pub proof fn law_filled_parameters(
    s: State,
    params: Seq<Parameter>,
    slots: Seq<Option<Val>>,
    i: nat,
    scope: Scope,
    name: Seq<char>,
)
    requires
        crate::scope::store_ok(s.store),
        scope_ok(s.store, scope),
        slots.len() == params.len(),
        i <= params.len(),
        s.store.len() + params.len() - i < usize::MAX,
        forall|a: int, b: int|
            0 <= a < b < params.len() ==> (#[trigger] params[a]).name@ != (#[trigger] params[b]).name@,
    ensures
        ({
            let (t, c) = bind_slots(s, params, slots, i as int, scope);
            &&& forall|j: int|
                i <= j < params.len() && params[j].name@ == name ==> meaning(t.store, c, name) == match #[trigger] slots[j] {
                    Some(v) => Some(v),
                    None => meaning(s.store, scope, name),
                }
            &&& (forall|j: int| i <= j < params.len() ==> (#[trigger] params[j]).name@ != name) ==> meaning(
                t.store,
                c,
                name,
            ) == meaning(s.store, scope, name)
        }),
    decreases params.len() - i,
{
    if i < params.len() {
        let (t, c) = bind_slots(s, params, slots, i as int, scope);
        match slots[i as int] {
            Some(v) => {
                let p = params[i as int].name@;
                let u = s.binding(scope, p, v);
                assert(u.store == crate::scope::bound(s.store, scope, p, v));
                crate::scope::law_bind_shadows(s.store, scope, p, v, name);
                assert(crate::scope::links_ok(s.store, scope.at as int));
                crate::scope::lemma_push_ok(s.store, crate::scope::bound_cell(s.store, scope, p, v));
                law_filled_parameters(u, params, slots, i + 1, u.here(), name);
                assert(u.here() == crate::scope::newest(u.store));
            },
            None => {
                law_filled_parameters(s, params, slots, i + 1, scope, name);
            },
        }
        assert forall|j: int| i <= j < params.len() && params[j].name@ == name implies meaning(t.store, c, name)
            == match #[trigger] slots[j] {
            Some(v) => Some(v),
            None => meaning(s.store, scope, name),
        } by {
            if j == i {
                assert forall|k: int| i + 1 <= k < params.len() implies (#[trigger] params[k]).name@ != name by {
                    assert(params[i as int].name@ != params[k].name@);
                }
            } else {
                assert(params[i as int].name@ != params[j].name@);
            }
        }
    }
}

/// A function that is taken out of an object finds the object by the name `this`, where it has a parameter of that name
/// and no argument fills it.
pub proof fn law_receivers(params: Seq<Parameter>, m: Filled, this: Option<Val>, i: int)
    requires
        m.slots.len() == params.len(),
        param_from(params, "this"@, 0) == Some(i),
        0 <= i < params.len(),
    ensures
        this matches Some(v) ==> with_receiver(params, m, this).slots[i] == match m.slots[i] {
            Some(x) => Some(x),
            None => Some(v),
        },
        this is None ==> with_receiver(params, m, this) == m,
        with_receiver(params, m, this).extra == m.extra,
{
}

/// Values alone fill the parameters from the left; what a positional call from native code gives is what a call with
/// values by position gives.
pub proof fn law_values_in_order(params: Seq<Parameter>, args: Seq<Val>, i: int)
    requires
        0 <= i < params.len(),
    ensures
        in_order(params, args).slots.len() == params.len(),
        i < args.len() ==> in_order(params, args).slots[i] == Some(args[i]),
        i >= args.len() ==> in_order(params, args).slots[i] is None,
        in_order(params, args).extra.len() == 0,
{
}

/// Walking a path leads from part to part: no step leads nowhere else, one step leads to the part that it numbers, and a
/// path in two legs is walked one after the other.
pub proof fn law_paths(e: Expr, a: Seq<usize>, b: Seq<usize>, i: usize)
    ensures
        at_path(e, Seq::empty(), 0) == Some(e),
        i < parts(e).len() ==> at_path(e, seq![i], 0) == Some(parts(e)[i as int]),
        i >= parts(e).len() ==> at_path(e, seq![i], 0) is None,
        at_path(e, a + b, 0) == match at_path(e, a, 0) {
            Some(x) => at_path(x, b, 0),
            None => None,
        },
{
    reveal_with_fuel(at_path, 2);
    lemma_two_legs(e, a, b, 0);
}

proof fn lemma_two_legs(e: Expr, a: Seq<usize>, b: Seq<usize>, i: int)
    requires
        0 <= i <= a.len(),
    ensures
        at_path(e, a + b, i) == match at_path(e, a, i) {
            Some(x) => at_path(x, b, 0),
            None => None,
        },
    decreases a.len() - i,
{
    if i < a.len() {
        assert((a + b)[i] == a[i]);
        if a[i] < parts(e).len() {
            lemma_two_legs(parts(e)[a[i] as int], a, b, i + 1);
        }
    } else {
        lemma_second_leg(e, a, b, 0);
    }
}

proof fn lemma_second_leg(e: Expr, a: Seq<usize>, b: Seq<usize>, i: int)
    requires
        0 <= i <= b.len(),
    ensures
        at_path(e, a + b, a.len() + i) == at_path(e, b, i),
    decreases b.len() - i,
{
    if i < b.len() {
        assert((a + b)[a.len() + i] == b[i]);
        if b[i] < parts(e).len() {
            lemma_second_leg(parts(e)[b[i] as int], a, b, i + 1);
        }
    }
}

}

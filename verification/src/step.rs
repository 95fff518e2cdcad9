//! Making one step of a run.

use std::rc::Rc;

use vstd::prelude::*;

use crate::ast::{opt_text, same_name, same_opt_name, Arg, BinOp, Expr, Name};
use crate::chars::cat3;
use crate::console::{any_too_deep, assert_error, opt_expr, too_deep_error};
use crate::eval::{lemma_grown, Ctx, Signal};
use crate::iterate::{
    append_values, build_range, count_items, is_comprehension, item_count, iter_values,
    name_closure, splice_into,
};
use crate::machine::{
    apply_step, assembled, bind_group, bind_vars, bind_where, bound_before, bound_name,
    call_value_step, call_width, callee_base, cfor_set_next, charged, collected, costs, each_from,
    enter, for_next, for_start, job_ok, jobs, let_bind, let_next, named_vals, names_of, perform,
    perform_binding, perform_call, perform_console, perform_cycle, perform_element, perform_plain,
    run_ok, set_var, shorter, sibling_value, snap_of, uncompiled, verdict_step, CFor, Call, Job,
    PuritySnap, Sig, State, Task, MAX_CALL_DEPTH, MAX_CFOR_ITERATIONS,
};
use crate::message::Error;
use crate::num::{unit, unit_ok, FloatOp, ONE};
use crate::ops::{binary, index, member, unary};
use crate::schedule::val_opt;
use crate::scope::{scope_ok, Scope};
use crate::value::{build_vector, lemma_vals_push, siblings, vals, SiblingFn, Val, Value};

verus! {

impl PuritySnap {
    fn equals(&self, other: &PuritySnap) -> (r: bool)
        ensures
            r == (*self == *other),
    {
        self.messages == other.messages && self.draws == other.draws && self.closures
            == other.closures && self.impure_reads == other.impure_reads
    }
}

/// A function of a group as a value that captured `env`.
pub fn nested_fn_value(s: &SiblingFn, env: Scope, group: Option<Rc<Vec<SiblingFn>>>) -> (r: Value)
    ensures
        r@ == sibling_value(
            s@,
            env,
            match group {
                Some(g) => Some(siblings(g@)),
                None => None,
            },
        ),
{
    Value::Function {
        closure_id: s.closure_id,
        env,
        self_name: Some(s.name.clone()),
        repr: s.repr.clone(),
        group,
        bound_this: None,
    }
}

/// The name that an argument binds.
pub fn arg_name(a: &Arg) -> (r: Name)
    ensures
        r@ == bound_name(*a),
{
    match &a.name {
        Some(n) => n.clone(),
        None => Rc::new("_".to_owned()),
    }
}

/// Whether a `let` has bound the name of its binding `idx` before.
fn is_bound_before(bindings: &Vec<Arg>, idx: usize) -> (r: bool)
    requires
        idx < bindings@.len(),
    ensures
        r == bound_before(bindings@, idx as int),
{
    if bindings[idx].name.is_none() {
        return false;
    }
    let mut j: usize = 0;
    while j < idx
        invariant
            j <= idx < bindings@.len(),
            bindings@[idx as int].name is Some,
            forall|k: int|
                0 <= k < j ==> opt_text((#[trigger] bindings@[k]).name) != opt_text(
                    bindings@[idx as int].name,
                ),
        decreases idx - j,
    {
        if same_opt_name(&bindings[j].name, &bindings[idx].name) {
            return true;
        }
        j += 1;
    }
    false
}

/// Sets a variable: a known one keeps its place.
pub(crate) fn set_variable(vars: &mut Vec<(Name, Value)>, name: Name, v: Value)
    ensures
        named_vals(final(vars)@) == set_var(named_vals(old(vars)@), name@, v@, 0),
{
    let ghost before = named_vals(vars@);
    let mut i: usize = 0;
    while i < vars.len()
        invariant
            i <= vars@.len(),
            *vars == *old(vars),
            before == named_vals(vars@),
            set_var(before, name@, v@, 0) == set_var(before, name@, v@, i as int),
        decreases vars@.len() - i,
    {
        if same_name(&vars[i].0, &name) {
            vars.set(i, (name, v));
            assert(named_vals(vars@) =~= before.update(i as int, (name@, v@)));
            return;
        }
        i += 1;
    }
    vars.push((name, v));
    assert(named_vals(vars@) =~= before.push((name@, v@)));
}

/// The elements of a vector from the values of its element expressions.
fn assemble(es: &Vec<Expr>, vs: &Vec<Value>) -> (r: Vec<Value>)
    ensures
        vals(r@) == assembled(es@, vals(vs@), shorter(es@.len(), vs@.len())),
{
    broadcast use lemma_vals_push;

    let mut out: Vec<Value> = Vec::new();
    let mut i: usize = 0;
    assert(vals(out@) =~= Seq::<Val>::empty());
    while i < es.len() && i < vs.len()
        invariant
            i <= es@.len(),
            i <= vs@.len(),
            vals(out@) == assembled(es@, vals(vs@), i as nat),
        decreases es@.len() - i,
    {
        let v: Value = vs[i].clone();
        assert(vals(vs@)[i as int] == v@);
        if is_comprehension(&es[i]) {
            splice_into(v, &mut out);
        } else {
            out.push(v);
        }
        i += 1;
    }
    out
}

impl<'a> Ctx<'a> {
    /// Binds those values of a call whose origin is `want`.
    fn bind_given(&mut self, c: &Call<'a>, scope: Scope, want: bool) -> (r: Scope)
        requires
            run_ok(old(self)@),
            scope_ok(old(self)@.store, scope),
        ensures
            ({
                let (st, sc) = bind_where(old(self)@.store, scope, c@, want, call_width(c@));
                &&& final(self)@ == (State { store: st, ..old(self)@ })
                &&& r == sc
            }),
            r.at < final(self)@.store.len(),
            old(self)@.store.len() <= final(self)@.store.len(),
            run_ok(final(self)@),
    {
        let ghost s0 = self@;
        let mut here: Scope = scope;
        let mut i: usize = 0;
        while i < c.names.len() && i < c.provided.len() && i < c.vals.len()
            invariant
                i <= call_width(c@),
                run_ok(self@),
                here.at < self@.store.len(),
                s0.store.len() <= self@.store.len(),
                self@ == (State { store: self@.store, ..s0 }),
                (self@.store, here) == bind_where(s0.store, scope, c@, want, i as nat),
            decreases call_width(c@) - i,
        {
            assert(c@.names[i as int] == c.names@[i as int]@);
            assert(c@.vals[i as int] == c.vals@[i as int]@);
            if c.provided[i] == want {
                here = self.bind_in(here, c.names[i].clone(), c.vals[i].clone());
            }
            i += 1;
        }
        here
    }

    /// The counters that show whether a piece of evaluation had an effect.
    pub fn purity(&self) -> (r: PuritySnap)
        ensures
            r == snap_of(self@),
    {
        PuritySnap {
            messages: self.messages.len(),
            draws: self.draws,
            closures: self.closures.len(),
            impure_reads: self.impure_reads,
        }
    }

    /// Enters a call.
    pub(crate) fn enter_call(&mut self, c: Call<'a>, token: Option<u64>) -> (r: Signal)
        requires
            run_ok(old(self)@),
            scope_ok(old(self)@.store, c.base),
            scope_ok(old(self)@.store, c.caller),
        ensures
            (final(self)@, r@) == enter(old(self)@, c@, token),
            run_ok(final(self)@),
    {
        if self.live_calls >= MAX_CALL_DEPTH {
            let text: String = match c.name {
                Some(n) => cat3("Recursion detected calling function '", n.as_str(), "'"),
                None => "Recursion detected calling function (over 1000000 calls in flight)".to_owned(),
            };
            return Signal::Failed(Error::Eval(text));
        }
        let snap: PuritySnap = self.purity();
        let ghost before = self@;
        self.live_calls = self.live_calls + 1;
        proof {
            lemma_grown(before, self@);
        }
        self.push_task(Task::CallReturn);
        match token {
            Some(k) => {
                self.push_task(Task::CacheStore { token: k, snap });
            },
            None => {},
        }
        let fresh: Scope = self.frame(c.base, c.caller);
        let inner: Scope = self.bind_given(&c, fresh, false);
        let scope: Scope = self.bind_given(&c, inner, true);
        self.push_task(Task::Eval(c.body, scope));
        Signal::Running
    }

    pub(crate) fn run_uncompiled(&mut self, c: Call<'a>) -> (r: Signal)
        requires
            run_ok(old(self)@),
            scope_ok(old(self)@.store, c.base),
            scope_ok(old(self)@.store, c.caller),
        ensures
            (final(self)@, r@) == uncompiled(old(self)@, c@),
            run_ok(final(self)@),
    {
        if self.config.eval_cache {
            self.push_task(Task::AwaitMemo(c));
            Signal::Asking
        } else {
            self.enter_call(c, None)
        }
    }

    fn apply(&mut self, c: Call<'a>) -> (r: Signal)
        requires
            run_ok(old(self)@),
            scope_ok(old(self)@.store, c.base),
            scope_ok(old(self)@.store, c.caller),
        ensures
            (final(self)@, r@) == apply_step(old(self)@, c@),
            run_ok(final(self)@),
    {
        if self.config.jit && c.name.is_some() {
            self.push_task(Task::AwaitJit(c));
            Signal::Asking
        } else {
            self.run_uncompiled(c)
        }
    }

    fn bind_siblings(&mut self, scope: Scope, env: Scope, group: &Rc<Vec<SiblingFn>>) -> (r: Scope)
        requires
            run_ok(old(self)@),
            scope_ok(old(self)@.store, scope),
        ensures
            ({
                let g = siblings(group@);
                let (st, sc) = bind_group(old(self)@.store, scope, env, g, g.len());
                &&& final(self)@ == (State { store: st, ..old(self)@ })
                &&& r == sc
            }),
            r.at < final(self)@.store.len(),
            old(self)@.store.len() <= final(self)@.store.len(),
            run_ok(final(self)@),
    {
        let ghost s0 = self@;
        let ghost g = siblings(group@);
        let mut here: Scope = scope;
        let mut i: usize = 0;
        while i < group.len()
            invariant
                i <= group@.len(),
                g == siblings(group@),
                run_ok(self@),
                here.at < self@.store.len(),
                s0.store.len() <= self@.store.len(),
                self@ == (State { store: self@.store, ..s0 }),
                (self@.store, here) == bind_group(s0.store, scope, env, g, i as nat),
            decreases group@.len() - i,
        {
            let b: &SiblingFn = &group[i];
            assert(g[i as int] == b@);
            here =
            self.bind_in(here, b.name.clone(), nested_fn_value(b, env, Some(group.clone())));
            i += 1;
        }
        here
    }

    /// The scope that the body of a function value is based on.
    pub(crate) fn base_of(
        &mut self,
        callee: &Value,
        env: Scope,
        self_name: &Option<Name>,
        group: &Option<Rc<Vec<SiblingFn>>>,
    ) -> (r: Scope)
        requires
            run_ok(old(self)@),
            scope_ok(old(self)@.store, env),
        ensures
            ({
                let (st, sc) = callee_base(
                    old(self)@.store,
                    callee@,
                    env,
                    opt_text(*self_name),
                    match *group {
                        Some(g) => Some(siblings(g@)),
                        None => None,
                    },
                );
                &&& final(self)@ == (State { store: st, ..old(self)@ })
                &&& r == sc
            }),
            r.at < final(self)@.store.len(),
            old(self)@.store.len() <= final(self)@.store.len(),
            run_ok(final(self)@),
    {
        let alone: bool = match group {
            Some(g) => g.len() == 0,
            None => true,
        };
        if self_name.is_none() && alone {
            return env;
        }
        let mut here: Scope = self.child(env);
        match group {
            Some(g) => {
                here = self.bind_siblings(here, env, g);
            },
            None => {},
        }
        match self_name {
            Some(n) => {
                here = self.bind_in(here, n.clone(), callee.clone());
            },
            None => {},
        }
        here
    }

    /// Calls a value.
    fn call_value(&mut self, callee: Value, args: &'a Vec<Arg>, caller: Scope)
        requires
            run_ok(old(self)@),
            scope_ok(old(self)@.store, caller),
        ensures
            final(self)@ == call_value_step(old(self)@, callee@, args@, caller),
            run_ok(final(self)@),
    {
        match &callee {
            Value::Function { closure_id, env, self_name, group, bound_this, .. } => {
                if *closure_id >= self.closures.len() || env.at >= self.store.nodes.len() {
                    self.push_value(Value::Undef);
                    return;
                }
                let this: Option<Value> = match bound_this {
                    Some(o) => Some(Value::Object(o.clone())),
                    None => None,
                };
                let params: &'a Vec<crate::ast::Parameter> = self.closures[*closure_id].params;
                let body: &'a Expr = self.closures[*closure_id].body;
                assert(self@.closures[*closure_id as int] == self.closures@[*closure_id as int]@);
                let base: Scope = self.base_of(&callee, *env, self_name, group);
                self.push_call(params, body, args, caller, base, None, this);
            },
            _ => {
                self.push_value(Value::Undef);
            },
        }
    }

    fn bind_let(&mut self, bindings: &'a Vec<Arg>, idx: usize, v: Value, scope: Scope) -> (r: Scope)
        requires
            run_ok(old(self)@),
            scope_ok(old(self)@.store, scope),
            idx < bindings@.len(),
        ensures
            (final(self)@, r) == let_bind(old(self)@, bindings@, idx as int, v@, scope),
            r.at < final(self)@.store.len(),
            run_ok(final(self)@),
    {
        let name: Name = arg_name(&bindings[idx]);
        let value: Value = name_closure(v, &name);
        if is_bound_before(bindings, idx) {
            self.warn(cat3("Ignoring duplicate variable assignment \"", name.as_str(), "\""));
            scope
        } else {
            let inner: Scope = self.child(scope);
            self.bind_in(inner, name, value)
        }
    }

    fn push_let_next(
        &mut self,
        bindings: &'a Vec<Arg>,
        idx: usize,
        body: &'a Expr,
        scope: Scope,
        elem: bool,
    )
        requires
            run_ok(old(self)@),
            scope_ok(old(self)@.store, scope),
            idx < bindings@.len(),
        ensures
            final(self)@ == let_next(old(self)@, bindings@, idx, *body, scope, elem),
            run_ok(final(self)@),
    {
        let n: usize = bindings.len();
        let k: usize = idx + 1;
        if k < n {
            let next: Task<'a> = if elem {
                Task::LcLetStep { bindings, idx: k, body, scope }
            } else {
                Task::LetStep { bindings, idx: k, body, scope }
            };
            self.push_task(next);
            self.push_task(Task::Eval(&bindings[k].value, scope));
        } else if elem {
            self.push_task(Task::LcElem(body, scope));
        } else {
            self.push_task(Task::Eval(body, scope));
        }
    }

    /// The outcome of an assertion whose message, where it has one, is known.
    fn assert_verdict(
        &mut self,
        passed: bool,
        message: Option<Value>,
        body: Option<&'a Expr>,
        shown: &'a Name,
        scope: Scope,
    ) -> (r: Signal)
        requires
            run_ok(old(self)@),
            scope_ok(old(self)@.store, scope),
        ensures
            (final(self)@, r@) == verdict_step(
                old(self)@,
                passed,
                val_opt(message),
                opt_expr(body),
                shown@,
                scope,
            ),
            run_ok(final(self)@),
    {
        if passed {
            self.push_body(body, scope);
            return Signal::Running;
        }
        match message {
            None => Signal::Failed(assert_error(None, shown.as_str())),
            Some(Value::Str(t)) => Signal::Failed(assert_error(Some(t.as_str()), shown.as_str())),
            Some(value) => {
                self.push_task(Task::AwaitAssert { value, shown });
                Signal::Asking
            },
        }
    }
}

impl<'a> Ctx<'a> {
    /// Charges for all values that iterating a value yields, before any of them is made.
    pub fn charge_iterable<F: Fn(FloatOp, u64, u64) -> u64>(&mut self, v: &Value, fpu: &F) -> (r:
        Result<(), Error>)
        requires
            run_ok(old(self)@),
            unit_ok(*fpu),
        ensures
            ({
                let n = item_count(v@, unit(*fpu)) as u64;
                &&& final(self)@ == charged(old(self)@, n).0
                &&& match r {
                    Ok(_) => charged(old(self)@, n).1 is None,
                    Err(e) => charged(old(self)@, n).1 == Some(e@),
                }
            }),
            run_ok(final(self)@),
    {
        let n: u64 = count_items(v, fpu);
        self.charge(n)
    }

    fn splice_contributions<F: Fn(FloatOp, u64, u64) -> u64>(&mut self, cs: Vec<Value>, fpu: &F) -> (r:
        Result<Vec<Value>, Error>)
        requires
            run_ok(old(self)@),
            unit_ok(*fpu),
        ensures
            ({
                let (s, fault, out) = each_from(
                    old(self)@,
                    vals(cs@),
                    0,
                    Seq::empty(),
                    unit(*fpu),
                );
                &&& final(self)@ == s
                &&& match r {
                    Ok(v) => fault is None && vals(v@) == out,
                    Err(e) => fault == Some(e@),
                }
            }),
            run_ok(final(self)@),
    {
        let ghost s0 = self@;
        let ghost all = vals(cs@);
        let mut out: Vec<Value> = Vec::new();
        assert(vals(out@) =~= Seq::<Val>::empty());
        let mut i: usize = 0;
        while i < cs.len()
            invariant
                i <= cs@.len(),
                all == vals(cs@),
                s0 == old(self)@,
                unit_ok(*fpu),
                run_ok(self@),
                each_from(self@, all, i as int, vals(out@), unit(*fpu)) == each_from(
                    s0,
                    all,
                    0,
                    Seq::empty(),
                    unit(*fpu),
                ),
            decreases cs@.len() - i,
        {
            assert(all[i as int] == cs@[i as int]@);
            match self.charge_iterable(&cs[i], fpu) {
                Ok(_) => {},
                Err(e) => {
                    return Err(e);
                },
            }
            let (mut more, w) = iter_values(&cs[i], fpu);
            self.warn_opt(w);
            append_values(&mut out, &mut more);
            i += 1;
        }
        Ok(out)
    }

    fn each_splice<F: Fn(FloatOp, u64, u64) -> u64>(&mut self, splice_inner: bool, fpu: &F) -> (r:
        Signal)
        requires
            run_ok(old(self)@),
            unit_ok(*fpu),
        ensures
            (final(self)@, r@) == perform(
                old(self)@,
                Job::LcEachSplice { splice_inner },
                unit(*fpu),
            ),
            run_ok(final(self)@),
    {
        reveal(perform_element);
        let inner: Value = self.pop_value();
        let cs: Vec<Value> = if splice_inner {
            let (items, w) = iter_values(&inner, fpu);
            self.warn_opt(w);
            items
        } else {
            let mut one: Vec<Value> = Vec::new();
            one.push(inner);
            assert(vals(one@) =~= seq![inner@]);
            one
        };
        match self.splice_contributions(cs, fpu) {
            Ok(out) => {
                self.push_value(build_vector(out));
                Signal::Running
            },
            Err(e) => Signal::Failed(e),
        }
    }

    /// Collects what a turn of a loop gave.
    fn collect<F: Fn(FloatOp, u64, u64) -> u64>(
        &mut self,
        acc: &mut Vec<Value>,
        splice_item: bool,
        fpu: &F,
    )
        requires
            run_ok(old(self)@),
            unit_ok(*fpu),
        ensures
            (final(self)@, vals(final(acc)@)) == collected(
                old(self)@,
                vals(old(acc)@),
                splice_item,
                unit(*fpu),
            ),
            run_ok(final(self)@),
    {
        broadcast use lemma_vals_push;

        let v: Value = self.pop_value();
        if splice_item {
            let (mut more, w) = iter_values(&v, fpu);
            self.warn_opt(w);
            append_values(acc, &mut more);
        } else {
            acc.push(v);
        }
    }

    fn start_loop<F: Fn(FloatOp, u64, u64) -> u64>(
        &mut self,
        bindings: &'a Vec<Arg>,
        at: usize,
        body: &'a Expr,
        scope: Scope,
        fpu: &F,
    ) -> (r: Signal)
        requires
            run_ok(old(self)@),
            unit_ok(*fpu),
            scope_ok(old(self)@.store, scope),
            at < bindings@.len(),
        ensures
            (final(self)@, r@) == for_start(
                old(self)@,
                bindings@,
                at,
                *body,
                scope,
                unit(*fpu),
            ),
            run_ok(final(self)@),
    {
        let iterable: Value = self.pop_value();
        match self.charge_iterable(&iterable, fpu) {
            Ok(_) => {},
            Err(e) => {
                return Signal::Failed(e);
            },
        }
        let n: usize = bindings.len();
        let splice_item: bool = at + 1 < n || is_comprehension(body);
        let frame: Scope = self.child(scope);
        let (items, w) = iter_values(&iterable, fpu);
        self.warn_opt(w);
        let acc: Vec<Value> = Vec::new();
        assert(vals(acc@) =~= Seq::<Val>::empty());
        self.push_task(
            Task::LcForNext {
                bindings,
                at: at + 1,
                body,
                var: arg_name(&bindings[at]),
                items,
                next: 0,
                frame,
                acc,
                splice_item,
                pending: false,
            },
        );
        Signal::Running
    }

    fn turn_loop<F: Fn(FloatOp, u64, u64) -> u64>(
        &mut self,
        bindings: &'a Vec<Arg>,
        at: usize,
        body: &'a Expr,
        var: Name,
        items: Vec<Value>,
        next: usize,
        frame: Scope,
        acc0: Vec<Value>,
        splice_item: bool,
        pending: bool,
        fpu: &F,
    )
        requires
            run_ok(old(self)@),
            unit_ok(*fpu),
            scope_ok(old(self)@.store, frame),
        ensures
            final(self)@ == for_next(
                old(self)@,
                bindings@,
                at,
                *body,
                var@,
                vals(items@),
                next,
                frame,
                vals(acc0@),
                splice_item,
                pending,
                unit(*fpu),
            ),
            run_ok(final(self)@),
    {
        let mut acc: Vec<Value> = acc0;
        if pending {
            self.collect(&mut acc, splice_item, fpu);
        }
        let n: usize = items.len();
        if next < n {
            let item: Value = items[next].clone();
            assert(vals(items@)[next as int] == item@);
            let scope: Scope = self.bind_in(frame, var.clone(), item);
            self.push_task(
                Task::LcForNext {
                    bindings,
                    at,
                    body,
                    var,
                    items,
                    next: next + 1,
                    frame,
                    acc,
                    splice_item,
                    pending: true,
                },
            );
            if at < bindings.len() {
                self.push_task(Task::LcForBindings { bindings, at, body, scope });
            } else {
                self.push_item(body, scope);
            }
        } else {
            self.push_value(build_vector(acc));
        }
    }

    fn bind_variables(&mut self, vars: &Vec<(Name, Value)>, scope: Scope) -> (r: Scope)
        requires
            run_ok(old(self)@),
            scope_ok(old(self)@.store, scope),
        ensures
            ({
                let vs = named_vals(vars@);
                let (st, sc) = bind_vars(old(self)@.store, scope, vs, vs.len());
                &&& final(self)@ == (State { store: st, ..old(self)@ })
                &&& r == sc
            }),
            r.at < final(self)@.store.len(),
            old(self)@.store.len() <= final(self)@.store.len(),
            run_ok(final(self)@),
    {
        let ghost s0 = self@;
        let ghost vs = named_vals(vars@);
        let mut here: Scope = scope;
        let mut i: usize = 0;
        while i < vars.len()
            invariant
                i <= vars@.len(),
                vs == named_vals(vars@),
                run_ok(self@),
                here.at < self@.store.len(),
                s0.store.len() <= self@.store.len(),
                self@ == (State { store: self@.store, ..s0 }),
                (self@.store, here) == bind_vars(s0.store, scope, vs, i as nat),
            decreases vars@.len() - i,
        {
            assert(vs[i as int] == (vars@[i as int].0@, vars@[i as int].1@));
            here = self.bind_in(here, vars[i].0.clone(), vars[i].1.clone());
            i += 1;
        }
        here
    }

    fn push_cfor_set(&mut self, at: usize, loop_scope: Scope, state: CFor<'a>) -> (r: Signal)
        requires
            run_ok(old(self)@),
            scope_ok(old(self)@.store, loop_scope),
            scope_ok(old(self)@.store, state.outer),
        ensures
            (final(self)@, r@) == cfor_set_next(old(self)@, at as int, loop_scope, state@),
            run_ok(final(self)@),
    {
        let update: &'a Vec<Arg> = state.update;
        if at < update.len() {
            self.push_task(Task::CForSet { at, loop_scope, state });
            self.push_task(Task::Eval(&update[at].value, loop_scope));
            Signal::Running
        } else if state.iterations >= MAX_CFOR_ITERATIONS {
            Signal::Failed(Error::Eval("For loop counter exceeded limit".to_owned()))
        } else {
            let mut next: CFor<'a> = state;
            next.iterations = next.iterations + 1;
            self.push_task(Task::LcForCStep(next));
            Signal::Running
        }
    }

    fn begin_cfor(&mut self, state: CFor<'a>)
        requires
            run_ok(old(self)@),
            scope_ok(old(self)@.store, state.outer),
        ensures
            forall|f: spec_fn(FloatOp, u64, u64) -> u64|
                (final(self)@, Sig::Running) == #[trigger] perform(
                    old(self)@,
                    Job::LcForCStep(state@),
                    f,
                ),
            run_ok(final(self)@),
    {
        reveal(perform_cycle);
        let fresh: Scope = self.child(state.outer);
        let scope: Scope = self.bind_variables(&state.vars, fresh);
        let cond: &'a Expr = state.cond;
        self.push_task(Task::CForTest { loop_scope: scope, state });
        self.push_task(Task::Eval(cond, scope));
    }

    fn test_cfor(&mut self, loop_scope: Scope, state: CFor<'a>)
        requires
            run_ok(old(self)@),
            scope_ok(old(self)@.store, loop_scope),
            scope_ok(old(self)@.store, state.outer),
        ensures
            forall|f: spec_fn(FloatOp, u64, u64) -> u64|
                (final(self)@, Sig::Running) == #[trigger] perform(
                    old(self)@,
                    Job::CForTest { loop_scope, state: state@ },
                    f,
                ),
            run_ok(final(self)@),
    {
        reveal(perform_cycle);
        let c: Value = self.pop_value();
        if c.is_truthy() {
            let body: &'a Expr = state.body;
            let splice_item: bool = state.splice_item;
            self.push_task(Task::LcForCUpdate { loop_scope, state });
            if splice_item {
                self.push_task(Task::LcElem(body, loop_scope));
            } else {
                self.push_task(Task::Eval(body, loop_scope));
            }
        } else {
            self.push_value(build_vector(state.acc));
        }
    }

    fn init_cfor(&mut self, init: &'a Vec<Arg>, at: usize, scope: Scope, state0: CFor<'a>)
        requires
            run_ok(old(self)@),
            scope_ok(old(self)@.store, scope),
            scope_ok(old(self)@.store, state0.outer),
            at < init@.len(),
        ensures
            forall|f: spec_fn(FloatOp, u64, u64) -> u64|
                (final(self)@, Sig::Running) == #[trigger] perform(
                    old(self)@,
                    Job::CForInit { init: init@, at, scope, state: state0@ },
                    f,
                ),
            run_ok(final(self)@),
    {
        reveal(perform_cycle);
        let mut state: CFor<'a> = state0;
        let n: usize = init.len();
        let name: Name = arg_name(&init[at]);
        let v: Value = self.pop_value();
        let here: Scope = self.bind_in(scope, name.clone(), v.clone());
        state.vars.push((name, v));
        assert(named_vals(state.vars@) =~= state0@.vars.push((name@, v@)));
        self.push_cfor_init(init, at + 1, here, state);
    }

    fn update_cfor<F: Fn(FloatOp, u64, u64) -> u64>(
        &mut self,
        loop_scope: Scope,
        state0: CFor<'a>,
        fpu: &F,
    ) -> (r: Signal)
        requires
            run_ok(old(self)@),
            unit_ok(*fpu),
            scope_ok(old(self)@.store, loop_scope),
            scope_ok(old(self)@.store, state0.outer),
        ensures
            (final(self)@, r@) == perform(
                old(self)@,
                Job::LcForCUpdate { loop_scope, state: state0@ },
                unit(*fpu),
            ),
            run_ok(final(self)@),
    {
        reveal(perform_cycle);
        let CFor { cond, update, body, outer, vars, iterations, mut acc, splice_item } = state0;
        self.collect(&mut acc, splice_item, fpu);
        self.push_cfor_set(
            0,
            loop_scope,
            CFor { cond, update, body, outer, vars, iterations, acc, splice_item },
        )
    }

    fn set_cfor(&mut self, at: usize, loop_scope: Scope, state0: CFor<'a>) -> (r: Signal)
        requires
            run_ok(old(self)@),
            scope_ok(old(self)@.store, loop_scope),
            scope_ok(old(self)@.store, state0.outer),
            at < state0.update@.len(),
        ensures
            forall|f: spec_fn(FloatOp, u64, u64) -> u64|
                (final(self)@, r@) == #[trigger] perform(
                    old(self)@,
                    Job::CForSet { at, loop_scope, state: state0@ },
                    f,
                ),
            run_ok(final(self)@),
    {
        reveal(perform_cycle);
        let CFor { cond, update, body, outer, mut vars, iterations, acc, splice_item } = state0;
        let n: usize = update.len();
        let name: Name = arg_name(&update[at]);
        let v: Value = self.pop_value();
        let here: Scope = self.bind_in(loop_scope, name.clone(), v.clone());
        set_variable(&mut vars, name, v);
        self.push_cfor_set(
            at + 1,
            here,
            CFor { cond, update, body, outer, vars, iterations, acc, splice_item },
        )
    }
}

impl<'a> Ctx<'a> {
    fn weigh_assert(
        &mut self,
        cond: bool,
        msg: Option<&'a Expr>,
        body: Option<&'a Expr>,
        shown: &'a Name,
        scope: Scope,
    ) -> (r: Signal)
        requires
            run_ok(old(self)@),
            scope_ok(old(self)@.store, scope),
        ensures
            forall|f: spec_fn(FloatOp, u64, u64) -> u64|
                (final(self)@, r@) == #[trigger] perform(
                    old(self)@,
                    Job::AssertCheck {
                        cond,
                        msg: opt_expr(msg),
                        body: opt_expr(body),
                        shown: shown@,
                        scope,
                    },
                    f,
                ),
            run_ok(final(self)@),
    {
        reveal(perform_console);
        let passed: bool = if cond {
            let c: Value = self.pop_value();
            c.is_truthy()
        } else {
            false
        };
        match msg {
            Some(m) => {
                let impure_before: u64 = self.impure_reads;
                self.push_task(Task::AssertVerdict { passed, impure_before, body, shown, scope });
                self.push_task(Task::Eval(m, scope));
                Signal::Running
            },
            None => self.assert_verdict(passed, None, body, shown, scope),
        }
    }

    fn judge_assert(
        &mut self,
        passed: bool,
        impure_before: u64,
        body: Option<&'a Expr>,
        shown: &'a Name,
        scope: Scope,
    ) -> (r: Signal)
        requires
            run_ok(old(self)@),
            scope_ok(old(self)@.store, scope),
        ensures
            forall|f: spec_fn(FloatOp, u64, u64) -> u64|
                (final(self)@, r@) == #[trigger] perform(
                    old(self)@,
                    Job::AssertVerdict {
                        passed,
                        impure_before,
                        body: opt_expr(body),
                        shown: shown@,
                        scope,
                    },
                    f,
                ),
            run_ok(final(self)@),
    {
        reveal(perform_console);
        let v: Value = self.pop_value();
        let ghost before = self@;
        self.impure_reads = impure_before;
        proof {
            lemma_grown(before, self@);
        }
        self.assert_verdict(passed, Some(v), body, shown, scope)
    }

    fn ask_echo(&mut self, args: &'a Vec<Arg>, body: Option<&'a Expr>, scope: Scope) -> (r: Signal)
        requires
            run_ok(old(self)@),
            scope_ok(old(self)@.store, scope),
        ensures
            forall|f: spec_fn(FloatOp, u64, u64) -> u64|
                (final(self)@, r@) == #[trigger] perform(
                    old(self)@,
                    Job::EchoEmit { args: args@, body: opt_expr(body), scope },
                    f,
                ),
            run_ok(final(self)@),
    {
        reveal(perform_console);
        let vs: Vec<Value> = self.take_values(args.len());
        if any_too_deep(&vs) {
            return Signal::Failed(too_deep_error());
        }
        self.push_task(Task::AwaitEcho { args, body, scope, vals: vs });
        Signal::Asking
    }

    fn store_result(&mut self, token: u64, snap: PuritySnap) -> (r: Signal)
        requires
            run_ok(old(self)@),
        ensures
            forall|f: spec_fn(FloatOp, u64, u64) -> u64|
                (final(self)@, r@) == #[trigger] perform(
                    old(self)@,
                    Job::CacheStore { token, snap },
                    f,
                ),
            run_ok(final(self)@),
    {
        reveal(perform_call);
        let n: usize = self.values.len();
        if n == 0 || !self.purity().equals(&snap) {
            return Signal::Running;
        }
        let value: Value = self.values[n - 1].clone();
        assert(self@.top() == value@);
        Signal::Remember { token, value }
    }

    fn return_call(&mut self)
        requires
            run_ok(old(self)@),
        ensures
            forall|f: spec_fn(FloatOp, u64, u64) -> u64|
                (final(self)@, Sig::Running) == #[trigger] perform(old(self)@, Job::CallReturn, f),
            run_ok(final(self)@),
    {
        reveal(perform_call);
        let ghost before = self@;
        if self.live_calls > 0 {
            self.live_calls = self.live_calls - 1;
        }
        proof {
            lemma_grown(before, self@);
        }
    }

    fn branch_elem(&mut self, yes: &'a Expr, no: Option<&'a Expr>, scope: Scope)
        requires
            run_ok(old(self)@),
            scope_ok(old(self)@.store, scope),
        ensures
            forall|f: spec_fn(FloatOp, u64, u64) -> u64|
                (final(self)@, Sig::Running) == #[trigger] perform(
                    old(self)@,
                    Job::LcIfBranch { yes: *yes, no: opt_expr(no), scope },
                    f,
                ),
            run_ok(final(self)@),
    {
        reveal(perform_element);
        let c: Value = self.pop_value();
        let taken: Option<&'a Expr> = if c.is_truthy() {
            Some(yes)
        } else {
            no
        };
        match taken {
            Some(b) => {
                self.push_contribution(b, scope);
            },
            None => {
                let none: Vec<Value> = Vec::new();
                assert(vals(none@) =~= Seq::<Val>::empty());
                self.push_value(build_vector(none));
            },
        }
    }

    fn operate<F: Fn(FloatOp, u64, u64) -> u64>(&mut self, op: BinOp, fpu: &F)
        requires
            run_ok(old(self)@),
            unit_ok(*fpu),
        ensures
            (final(self)@, Sig::Running) == perform(old(self)@, Job::Binary(op), unit(*fpu)),
            run_ok(final(self)@),
    {
        reveal(perform_plain);
        let b: Value = self.pop_value();
        let a: Value = self.pop_value();
        let ghost before = self@;
        let v: Value = binary(&mut self.messages, op, a, b, fpu);
        proof {
            lemma_grown(before, self@);
        }
        self.push_value(v);
    }

    fn transform<F: Fn(FloatOp, u64, u64) -> u64>(&mut self, op: crate::ast::UnOp, fpu: &F)
        requires
            run_ok(old(self)@),
            unit_ok(*fpu),
        ensures
            (final(self)@, Sig::Running) == perform(old(self)@, Job::Unary(op), unit(*fpu)),
            run_ok(final(self)@),
    {
        reveal(perform_plain);
        let a: Value = self.pop_value();
        let ghost before = self@;
        let v: Value = unary(&mut self.messages, op, a, fpu);
        proof {
            lemma_grown(before, self@);
        }
        self.push_value(v);
    }

    fn short_circuit(&mut self, op: BinOp, rhs: &'a Expr, scope: Scope)
        requires
            run_ok(old(self)@),
            scope_ok(old(self)@.store, scope),
        ensures
            forall|f: spec_fn(FloatOp, u64, u64) -> u64|
                (final(self)@, Sig::Running) == #[trigger] perform(
                    old(self)@,
                    Job::ShortCircuit { op, rhs: *rhs, scope },
                    f,
                ),
            run_ok(final(self)@),
    {
        reveal(perform_plain);
        let lhs: Value = self.pop_value();
        let or: bool = op == BinOp::Or;
        if lhs.is_truthy() == or {
            self.push_value(Value::Bool(or));
        } else {
            self.push_value(lhs);
            self.push_task(Task::Binary(op));
            self.push_task(Task::Eval(rhs, scope));
        }
    }

    fn make_range(&mut self, stepped: bool)
        requires
            run_ok(old(self)@),
        ensures
            forall|f: spec_fn(FloatOp, u64, u64) -> u64|
                (final(self)@, Sig::Running) == #[trigger] perform(
                    old(self)@,
                    Job::Range { stepped },
                    f,
                ),
            run_ok(final(self)@),
    {
        reveal(perform_plain);
        let end: Value = self.pop_value();
        let step: Value = if stepped {
            self.pop_value()
        } else {
            Value::Num(ONE)
        };
        let start: Value = self.pop_value();
        self.push_value(build_range(&start, &step, &end));
    }

    /// Performs a task that was taken off the stack and paid for.
    fn perform_task<F: Fn(FloatOp, u64, u64) -> u64>(&mut self, task: Task<'a>, fpu: &F) -> (r:
        Signal)
        requires
            run_ok(old(self)@),
            unit_ok(*fpu),
            job_ok(old(self)@.store.len(), task@),
        ensures
            (final(self)@, r@) == perform(old(self)@, task@, unit(*fpu)),
            run_ok(final(self)@),
    {
        reveal(perform_plain);
        reveal(perform_call);
        reveal(perform_console);
        reveal(perform_element);
        reveal(perform_cycle);
        reveal(perform_binding);
        match task {
            Task::Eval(e, scope) => {
                self.eval_node(e, scope);
                Signal::Running
            },
            Task::Const(v) => {
                self.push_value(v);
                Signal::Running
            },
            Task::Binary(op) => {
                self.operate(op, fpu);
                Signal::Running
            },
            Task::Unary(op) => {
                self.transform(op, fpu);
                Signal::Running
            },
            Task::VectorSplice(es) => {
                let vs: Vec<Value> = self.take_values(es.len());
                let out: Vec<Value> = assemble(es, &vs);
                assert(vals(vs@).len() == vs@.len());
                self.push_value(build_vector(out));
                Signal::Running
            },
            Task::Index => {
                let key: Value = self.pop_value();
                let base: Value = self.pop_value();
                self.push_value(index(base, &key));
                Signal::Running
            },
            Task::Member(field) => {
                let base: Value = self.pop_value();
                self.push_value(member(base, field.as_str()));
                Signal::Running
            },
            Task::Range { stepped } => {
                self.make_range(stepped);
                Signal::Running
            },
            Task::Ternary { yes, no, scope } => {
                let c: Value = self.pop_value();
                if c.is_truthy() {
                    self.push_task(Task::Eval(yes, scope));
                } else {
                    self.push_task(Task::Eval(no, scope));
                }
                Signal::Running
            },
            Task::Apply { names, provided, body, base, caller, name } => {
                let n: usize = names.len();
                let vs: Vec<Value> = self.take_values(n);
                assert(names_of(names@).len() == n);
                self.apply(Call { names, provided, vals: vs, body, base, caller, name })
            },
            Task::CallValue { args, caller } => {
                let callee: Value = self.pop_value();
                self.call_value(callee, args, caller);
                Signal::Running
            },
            Task::Builtin { name, args } => {
                let vs: Vec<Value> = self.take_values(args.len());
                self.push_task(Task::AwaitBuiltin { name, args, vals: vs });
                Signal::Asking
            },
            Task::Native { name, nargs } => {
                let vs: Vec<Value> = self.take_values(nargs);
                self.push_task(Task::AwaitNative { name, vals: vs });
                Signal::Asking
            },
            Task::EchoEmit { args, body, scope } => self.ask_echo(args, body, scope),
            Task::AssertCheck { cond, msg, body, shown, scope } => self.weigh_assert(
                cond,
                msg,
                body,
                shown,
                scope,
            ),
            Task::AssertVerdict { passed, impure_before, body, shown, scope } => self.judge_assert(
                passed,
                impure_before,
                body,
                shown,
                scope,
            ),
            Task::LcElem(e, scope) => {
                self.eval_elem(e, scope);
                Signal::Running
            },
            Task::WrapContribution => {
                let mut one: Vec<Value> = Vec::new();
                let v: Value = self.pop_value();
                one.push(v);
                assert(vals(one@) =~= seq![v@]);
                self.push_value(build_vector(one));
                Signal::Running
            },
            Task::LcIfBranch { yes, no, scope } => {
                self.branch_elem(yes, no, scope);
                Signal::Running
            },
            Task::LcEachSplice { splice_inner } => self.each_splice(splice_inner, fpu),
            Task::LcForBindings { bindings, at, body, scope } => {
                if at < bindings.len() {
                    self.push_task(Task::LcForStart { bindings, at, body, scope });
                    self.push_task(Task::Eval(&bindings[at].value, scope));
                } else {
                    self.push_contribution(body, scope);
                }
                Signal::Running
            },
            Task::LcForStart { bindings, at, body, scope } => self.start_loop(
                bindings,
                at,
                body,
                scope,
                fpu,
            ),
            Task::LcForNext {
                bindings,
                at,
                body,
                var,
                items,
                next,
                frame,
                acc,
                splice_item,
                pending,
            } => {
                self.turn_loop(
                    bindings,
                    at,
                    body,
                    var,
                    items,
                    next,
                    frame,
                    acc,
                    splice_item,
                    pending,
                    fpu,
                );
                Signal::Running
            },
            Task::CForInit { init, at, scope, state } => {
                self.init_cfor(init, at, scope, state);
                Signal::Running
            },
            Task::LcForCStep(state) => {
                self.begin_cfor(state);
                Signal::Running
            },
            Task::CForTest { loop_scope, state } => {
                self.test_cfor(loop_scope, state);
                Signal::Running
            },
            Task::LcForCUpdate { loop_scope, state } => self.update_cfor(loop_scope, state, fpu),
            Task::CForSet { at, loop_scope, state } => self.set_cfor(at, loop_scope, state),
            Task::LetStep { bindings, idx, body, scope } => {
                let v: Value = self.pop_value();
                let inner: Scope = self.bind_let(bindings, idx, v, scope);
                self.push_let_next(bindings, idx, body, inner, false);
                Signal::Running
            },
            Task::LcLetStep { bindings, idx, body, scope } => {
                let v: Value = self.pop_value();
                let inner: Scope = self.bind_let(bindings, idx, v, scope);
                self.push_let_next(bindings, idx, body, inner, true);
                Signal::Running
            },
            Task::PushUndef => {
                self.push_value(Value::Undef);
                Signal::Running
            },
            Task::ShortCircuit { op, rhs, scope } => {
                self.short_circuit(op, rhs, scope);
                Signal::Running
            },
            Task::CacheStore { token, snap } => self.store_result(token, snap),
            Task::CallReturn => {
                self.return_call();
                Signal::Running
            },
            waiting => {
                self.push_task(waiting);
                Signal::Asking
            },
        }
    }

    /// Whether a task is paid for on its own.
    fn is_charged(task: &Task<'a>) -> (r: bool)
        ensures
            r == costs(task@),
    {
        match task {
            Task::AssertVerdict { .. } => false,
            Task::LcForStart { .. } => false,
            Task::CForInit { .. } => false,
            Task::CForTest { .. } => false,
            Task::CForSet { .. } => false,
            Task::LcLetStep { .. } => false,
            Task::AwaitBuiltin { .. } => false,
            Task::AwaitNative { .. } => false,
            Task::AwaitEcho { .. } => false,
            Task::AwaitAssert { .. } => false,
            Task::AwaitJit(_) => false,
            Task::AwaitMemo(_) => false,
            _ => true,
        }
    }

    /// Makes one step: the task on top is taken off, paid for and performed. Without tasks the
    /// value on top is the result.
    pub fn step<F: Fn(FloatOp, u64, u64) -> u64>(&mut self, fpu: &F) -> (r: Signal)
        requires
            run_ok(old(self)@),
            unit_ok(*fpu),
        ensures
            (final(self)@, r@) == crate::machine::step(old(self)@, unit(*fpu)),
            run_ok(final(self)@),
    {
        reveal(crate::machine::step);
        let ghost before = self@;
        match self.tasks.pop() {
            None => {
                assert(jobs(self.tasks@) =~= before.tasks);
                let v: Value = self.pop_value();
                Signal::Done(v)
            },
            Some(task) => {
                assert(jobs(self.tasks@) =~= before.tasks.drop_last());
                assert(before.tasks.last() == task@);
                assert(job_ok(before.store.len(), before.tasks[before.tasks.len() - 1]));
                assert forall|i: int| 0 <= i < self@.tasks.len() implies job_ok(
                    self@.store.len(),
                    #[trigger] self@.tasks[i],
                ) by {
                    assert(self@.tasks[i] == before.tasks[i]);
                }
                if Self::is_charged(&task) {
                    match self.charge(1) {
                        Ok(_) => {},
                        Err(e) => {
                            return Signal::Failed(e);
                        },
                    }
                }
                self.perform_task(task, fpu)
            },
        }
    }
}

}

//! Taking expressions and calls apart into tasks.

use std::rc::Rc;

use vstd::prelude::*;

use crate::ast::{arg_exprs, is_special, same_name, Arg, BinOp, Expr, ExprKind, Name, Parameter};
use crate::calls::{exprs_of, fill_arg_slots, find_param, matched, named_exprs, Matched};
use crate::chars::cat3;
use crate::console::{opt_expr, split_assert_args};
use crate::eval::{codes, Ctx};
use crate::intrinsics::position_of;
use crate::iterate::is_comprehension;
use crate::machine::{
    all_positional, body_step, call_names, call_provided, call_step, contribution_step, def_step,
    dispatch, elem_step, evals, extra_exprs, ident_step, item_step, known, named_vals, names_of,
    native_step, node_step, opt_ref_text, read, run_ok, source, sources, this_place, cfor_init_next,
    CFor, Closure, FnDef, Job, State, Task,
};
use crate::scope::{scope_ok, Scope};
use crate::value::{vals, Value};

verus! {

/// One more of a row of tasks.
proof fn lemma_tasks_take(s: State, js: Seq<Job>, k: int)
    requires
        0 <= k < js.len(),
    ensures
        s.tasks(js.take(k)).task(js[k]) == s.tasks(js.take(k + 1)),
{
    assert((s.tasks + js.take(k)).push(js[k]) =~= s.tasks + js.take(k + 1));
}

/// No task, and all tasks, of a row.
proof fn lemma_tasks_ends(s: State, js: Seq<Job>)
    ensures
        s.tasks(js.take(0)) == s,
        s.tasks(js.take(js.len() as int)) == s.tasks(js),
{
    assert(s.tasks + js.take(0) =~= s.tasks);
    assert(js.take(js.len() as int) =~= js);
}

/// Whether a name is in a list of names.
pub fn is_known(names: &Vec<Name>, name: &Name) -> (r: bool)
    ensures
        r == known(names_of(names@), name@),
{
    let ghost ns = names_of(names@);
    let mut i: usize = 0;
    while i < names.len()
        invariant
            i <= names@.len(),
            ns == names_of(names@),
            forall|k: int| 0 <= k < i ==> #[trigger] ns[k] != name@,
        decreases names@.len() - i,
    {
        if same_name(&names[i], name) {
            assert(ns[i as int] == name@);
            return true;
        }
        i += 1;
    }
    false
}

/// Whether all arguments are positional.
fn only_positional(args: &Vec<Arg>) -> (r: bool)
    ensures
        r == all_positional(args@),
{
    let mut i: usize = 0;
    while i < args.len()
        invariant
            i <= args@.len(),
            forall|k: int| 0 <= k < i ==> (#[trigger] args@[k]).name is None,
        decreases args@.len() - i,
    {
        if args[i].name.is_some() {
            return false;
        }
        i += 1;
    }
    true
}

impl<'a> Ctx<'a> {
    fn push_evals(&mut self, es: &'a Vec<Expr>, scope: Scope)
        requires
            run_ok(old(self)@),
            scope_ok(old(self)@.store, scope),
        ensures
            final(self)@ == old(self)@.tasks(evals(es@, scope)),
            run_ok(final(self)@),
    {
        let ghost s0 = self@;
        let ghost js = evals(es@, scope);
        let mut i: usize = es.len();
        proof {
            lemma_tasks_ends(s0, js);
        }
        while i > 0
            invariant
                i <= es@.len(),
                js == evals(es@, scope),
                scope_ok(s0.store, scope),
                run_ok(self@),
                self@ == s0.tasks(js.take(es@.len() - i)),
            decreases i,
        {
            i -= 1;
            proof {
                lemma_tasks_take(s0, js, es@.len() - i - 1);
            }
            self.push_task(Task::Eval(&es[i], scope));
        }
    }

    fn push_args(&mut self, args: &'a Vec<Arg>, n: usize, scope: Scope)
        requires
            run_ok(old(self)@),
            scope_ok(old(self)@.store, scope),
            n <= args@.len(),
        ensures
            final(self)@ == old(self)@.tasks(evals(arg_exprs(args@).take(n as int), scope)),
            run_ok(final(self)@),
    {
        let ghost s0 = self@;
        let ghost es = arg_exprs(args@).take(n as int);
        let ghost js = evals(es, scope);
        let mut i: usize = n;
        proof {
            lemma_tasks_ends(s0, js);
        }
        while i > 0
            invariant
                i <= n,
                n <= args@.len(),
                es == arg_exprs(args@).take(n as int),
                js == evals(es, scope),
                scope_ok(s0.store, scope),
                run_ok(self@),
                self@ == s0.tasks(js.take(n - i)),
            decreases i,
        {
            i -= 1;
            proof {
                lemma_tasks_take(s0, js, n - i - 1);
            }
            self.push_task(Task::Eval(&args[i].value, scope));
        }
    }

    fn push_all_args(&mut self, args: &'a Vec<Arg>, scope: Scope)
        requires
            run_ok(old(self)@),
            scope_ok(old(self)@.store, scope),
        ensures
            final(self)@ == old(self)@.tasks(evals(arg_exprs(args@), scope)),
            run_ok(final(self)@),
    {
        assert(arg_exprs(args@).take(args@.len() as int) =~= arg_exprs(args@));
        self.push_args(args, args.len(), scope);
    }

    /// The meaning of an identifier; `undef`, with a warning unless it is a `$`-name, where it is
    /// unbound.
    fn resolve_ident(&mut self, name: &Name, scope: Scope)
        requires
            run_ok(old(self)@),
            scope_ok(old(self)@.store, scope),
        ensures
            final(self)@ == ident_step(old(self)@, name@, scope),
            run_ok(final(self)@),
    {
        let found: Option<Value> = self.captures.read(&self.store, scope, name.as_str());
        assert(self@ == read(old(self)@, scope, name@).1);
        match found {
            Some(v) => {
                self.push_value(v);
            },
            None => {
                if !is_special(name.as_str()) {
                    self.warn(cat3("Ignoring unknown variable '", name.as_str(), "'"));
                }
                self.push_value(Value::Undef);
            },
        }
    }

    /// Schedules the values of the parameters of a call.
    fn push_sources(
        &mut self,
        params: &'a Vec<Parameter>,
        slots: &Vec<Option<&'a Expr>>,
        Ghost(m): Ghost<Matched>,
        this_at: Option<usize>,
        this: &Option<Value>,
        caller: Scope,
        base: Scope,
    )
        requires
            run_ok(old(self)@),
            scope_ok(old(self)@.store, caller),
            scope_ok(old(self)@.store, base),
            slots@.len() == params@.len(),
            exprs_of(slots@) == m.slots,
            this_at is Some ==> this is Some,
            match this_at {
                Some(i) => this_place(params@, m, val_opt(*this)) == Some(i as int),
                None => this_place(params@, m, val_opt(*this)) is None,
            },
        ensures
            final(self)@ == old(self)@.tasks(sources(params@, m, val_opt(*this), caller, base)),
            run_ok(final(self)@),
    {
        let ghost s0 = self@;
        let ghost js = sources(params@, m, val_opt(*this), caller, base);
        let mut i: usize = params.len();
        proof {
            lemma_tasks_ends(s0, js);
        }
        while i > 0
            invariant
                i <= params@.len(),
                js == sources(params@, m, val_opt(*this), caller, base),
                scope_ok(s0.store, caller),
                scope_ok(s0.store, base),
                slots@.len() == params@.len(),
                exprs_of(slots@) == m.slots,
                this_at is Some ==> this is Some,
                match this_at {
                    Some(i) => this_place(params@, m, val_opt(*this)) == Some(i as int),
                    None => this_place(params@, m, val_opt(*this)) is None,
                },
                run_ok(self@),
                self@ == s0.tasks(js.take(params@.len() - i)),
            decreases i,
        {
            i -= 1;
            proof {
                lemma_tasks_take(s0, js, params@.len() - i - 1);
                assert(js[params@.len() - i - 1] == source(
                    params@,
                    m,
                    val_opt(*this),
                    caller,
                    base,
                    i as int,
                ));
                assert(exprs_of(slots@)[i as int] == m.slots[i as int]);
            }
            let receiver: bool = match this_at {
                Some(k) => k == i,
                None => false,
            };
            if receiver {
                match this {
                    Some(v) => {
                        self.push_task(Task::Const(v.clone()));
                    },
                    None => {},
                }
            } else {
                match slots[i] {
                    Some(e) => {
                        self.push_task(Task::Eval(e, caller));
                    },
                    None => match &params[i].default {
                        Some(d) => {
                            self.push_task(Task::Eval(d, base));
                        },
                        None => {
                            self.push_task(Task::PushUndef);
                        },
                    },
                }
            }
        }
    }

    fn push_extras(&mut self, extra: &Vec<(Name, &'a Expr)>, Ghost(m): Ghost<Matched>, caller: Scope)
        requires
            run_ok(old(self)@),
            scope_ok(old(self)@.store, caller),
            named_exprs(extra@) == m.extra,
        ensures
            final(self)@ == old(self)@.tasks(evals(extra_exprs(m), caller)),
            run_ok(final(self)@),
    {
        let ghost s0 = self@;
        let ghost es = extra_exprs(m);
        let ghost js = evals(es, caller);
        let mut i: usize = extra.len();
        proof {
            lemma_tasks_ends(s0, js);
        }
        while i > 0
            invariant
                i <= extra@.len(),
                named_exprs(extra@) == m.extra,
                es == extra_exprs(m),
                js == evals(es, caller),
                scope_ok(s0.store, caller),
                run_ok(self@),
                self@ == s0.tasks(js.take(extra@.len() - i)),
            decreases i,
        {
            i -= 1;
            proof {
                lemma_tasks_take(s0, js, extra@.len() - i - 1);
                assert(named_exprs(extra@)[i as int].1 == *extra@[i as int].1);
                assert(es[i as int] == *extra@[i as int].1);
            }
            self.push_task(Task::Eval(extra[i].1, caller));
        }
    }

    /// Schedules a call: the values of its parameters and of what is bound beside them, and then
    /// entering it.
    pub(crate) fn push_call(
        &mut self,
        params: &'a Vec<Parameter>,
        body: &'a Expr,
        args: &'a Vec<Arg>,
        caller: Scope,
        base: Scope,
        name: Option<&'a Name>,
        this: Option<Value>,
    )
        requires
            run_ok(old(self)@),
            scope_ok(old(self)@.store, caller),
            scope_ok(old(self)@.store, base),
        ensures
            final(self)@ == call_step(
                old(self)@,
                params@,
                *body,
                args@,
                caller,
                base,
                opt_ref_text(name),
                val_opt(this),
            ),
            run_ok(final(self)@),
    {
        let (slots, extra) = fill_arg_slots(params, args);
        let ghost m = matched(params@, args@, args@.len());
        assert(m.slots.len() == exprs_of(slots@).len());
        assert(m.extra.len() == named_exprs(extra@).len());
        let this_at: Option<usize> = receiver_place(params, &slots, Ghost(m), &this);
        let names: Vec<Name> = bound_names(params, &extra, Ghost(m));
        let provided: Vec<bool> = given(params, &slots, extra.len(), Ghost(m), this_at, Ghost(val_opt(this)));
        let kept: Option<&'a Name> = if extra.len() == 0 {
            name
        } else {
            None
        };
        self.push_task(Task::Apply { names, provided, body, base, caller, name: kept });
        self.push_extras(&extra, Ghost(m), caller);
        self.push_sources(params, &slots, Ghost(m), this_at, &this, caller, base);
    }
}

/// An optional value, mathematically.
pub open spec fn val_opt(v: Option<Value>) -> Option<crate::value::Val> {
    match v {
        Some(x) => Some(x@),
        None => None,
    }
}

/// The parameter that a receiver fills.
fn receiver_place(
    params: &Vec<Parameter>,
    slots: &Vec<Option<&Expr>>,
    Ghost(m): Ghost<Matched>,
    this: &Option<Value>,
) -> (r: Option<usize>)
    requires
        slots@.len() == params@.len(),
        exprs_of(slots@) == m.slots,
    ensures
        r is Some ==> this is Some,
        match r {
            Some(i) => this_place(params@, m, val_opt(*this)) == Some(i as int),
            None => this_place(params@, m, val_opt(*this)) is None,
        },
{
    if this.is_none() {
        return None;
    }
    let name: Name = Rc::new("this".to_owned());
    match find_param(params, &name) {
        Some(i) => {
            assert(exprs_of(slots@)[i as int] == m.slots[i as int]);
            if slots[i].is_none() {
                Some(i)
            } else {
                None
            }
        },
        None => None,
    }
}

/// The names that a call binds.
fn bound_names(params: &Vec<Parameter>, extra: &Vec<(Name, &Expr)>, Ghost(m): Ghost<Matched>) -> (r:
    Vec<Name>)
    requires
        named_exprs(extra@) == m.extra,
    ensures
        names_of(r@) == call_names(params@, m),
{
    let mut names: Vec<Name> = Vec::new();
    let mut i: usize = 0;
    while i < params.len()
        invariant
            i <= params@.len(),
            names@.len() == i,
            forall|k: int| 0 <= k < i ==> (#[trigger] names@[k])@ == params@[k].name@,
        decreases params@.len() - i,
    {
        names.push(params[i].name.clone());
        i += 1;
    }
    let mut k: usize = 0;
    while k < extra.len()
        invariant
            k <= extra@.len(),
            names@.len() == params@.len() + k,
            forall|j: int| 0 <= j < params@.len() ==> (#[trigger] names@[j])@ == params@[j].name@,
            forall|j: int|
                params@.len() <= j < names@.len() ==> (#[trigger] names@[j])@
                    == extra@[j - params@.len()].0@,
        decreases extra@.len() - k,
    {
        names.push(extra[k].0.clone());
        k += 1;
    }
    assert(named_exprs(extra@).len() == extra@.len());
    assert(names_of(names@) =~= call_names(params@, m)) by {
        assert forall|j: int| params@.len() <= j < names@.len() implies names_of(names@)[j]
            == call_names(params@, m)[j] by {
            assert(m.extra[j - params@.len()] == named_exprs(extra@)[j - params@.len()]);
            assert(names@[j]@ == extra@[j - params@.len()].0@);
        }
    }
    names
}

/// Which of the names that a call binds come from arguments.
fn given(
    params: &Vec<Parameter>,
    slots: &Vec<Option<&Expr>>,
    extras: usize,
    Ghost(m): Ghost<Matched>,
    this_at: Option<usize>,
    Ghost(this): Ghost<Option<crate::value::Val>>,
) -> (r: Vec<bool>)
    requires
        slots@.len() == params@.len(),
        exprs_of(slots@) == m.slots,
        extras == m.extra.len(),
        match this_at {
            Some(i) => this_place(params@, m, this) == Some(i as int),
            None => this_place(params@, m, this) is None,
        },
    ensures
        r@ == call_provided(params@, m, this),
{
    let mut provided: Vec<bool> = Vec::new();
    let mut i: usize = 0;
    let ghost target = call_provided(params@, m, this);
    while i < slots.len()
        invariant
            i <= slots@.len(),
            slots@.len() == params@.len(),
            exprs_of(slots@) == m.slots,
            target == call_provided(params@, m, this),
            match this_at {
                Some(i) => this_place(params@, m, this) == Some(i as int),
                None => this_place(params@, m, this) is None,
            },
            provided@ =~= target.take(i as int),
        decreases slots@.len() - i,
    {
        let receiver: bool = match this_at {
            Some(k) => k == i,
            None => false,
        };
        assert(exprs_of(slots@)[i as int] == m.slots[i as int]);
        provided.push(slots[i].is_some() || receiver);
        i += 1;
    }
    let mut k: usize = 0;
    while k < extras
        invariant
            k <= extras,
            extras == m.extra.len(),
            target == call_provided(params@, m, this),
            provided@ =~= target.take(params@.len() + k),
        decreases extras - k,
    {
        provided.push(true);
        k += 1;
    }
    assert(target.take(params@.len() + extras) =~= target);
    provided
}

impl<'a> Ctx<'a> {
    /// Schedules a call of a function that has a native version, where that takes the arguments.
    fn push_native(
        &mut self,
        name: &'a Name,
        params: &'a Vec<Parameter>,
        body: &'a Expr,
        home: usize,
        Ghost(fp): Ghost<u64>,
        args: &'a Vec<Arg>,
        scope: Scope,
    ) -> (r: bool)
        requires
            run_ok(old(self)@),
            scope_ok(old(self)@.store, scope),
            home < old(self)@.setup.globals.len(),
        ensures
            ({
                let def = crate::machine::Def { name: name@, params: params@, body: *body, home, fp };
                let s = native_step(old(self)@, def, args@, scope);
                &&& r == (s is Some)
                &&& r ==> final(self)@ == s->Some_0
                &&& !r ==> final(self)@ == old(self)@
            }),
            run_ok(final(self)@),
    {
        if only_positional(args) {
            let n: usize = if args.len() < params.len() {
                args.len()
            } else {
                params.len()
            };
            self.push_task(Task::Native { name, nargs: n });
            self.push_args(args, n, scope);
            return true;
        }
        let (slots, extra) = fill_arg_slots(params, args);
        let ghost m = matched(params@, args@, args@.len());
        assert(m.extra.len() == named_exprs(extra@).len());
        if extra.len() != 0 {
            return false;
        }
        let base: Scope = self.globals[home];
        assert(self@.setup.globals[home as int] == base);
        self.push_task(Task::Native { name, nargs: params.len() });
        self.push_sources(params, &slots, Ghost(m), None, &None, scope, base);
        true
    }

    fn push_def(
        &mut self,
        name: &'a Name,
        params: &'a Vec<Parameter>,
        body: &'a Expr,
        home: usize,
        Ghost(fp): Ghost<u64>,
        args: &'a Vec<Arg>,
        scope: Scope,
    )
        requires
            run_ok(old(self)@),
            scope_ok(old(self)@.store, scope),
            home < old(self)@.setup.globals.len(),
        ensures
            final(self)@ == def_step(
                old(self)@,
                crate::machine::Def { name: name@, params: params@, body: *body, home, fp },
                args@,
                scope,
            ),
            run_ok(final(self)@),
    {
        if is_known(&self.natives, name) {
            if self.push_native(name, params, body, home, Ghost(fp), args, scope) {
                return;
            }
        }
        let base: Scope = self.globals[home];
        assert(self@.setup.globals[home as int] == base);
        self.push_call(params, body, args, scope, base, Some(name), None);
    }

    /// Schedules a call: of a function value bound below the top level, of a defined function, of
    /// a builtin, of a name that means nothing (`undef`, with a warning), or of a value.
    pub(crate) fn dispatch_call(&mut self, callee: &'a Expr, args: &'a Vec<Arg>, scope: Scope)
        requires
            run_ok(old(self)@),
            scope_ok(old(self)@.store, scope),
        ensures
            final(self)@ == dispatch(old(self)@, *callee, args@, scope),
            run_ok(final(self)@),
    {
        match &callee.kind {
            ExprKind::Ident(name) => {
                match scope.lookup_local_function(&self.store, name.as_str()) {
                    Some(f) => {
                        self.push_task(Task::CallValue { args, caller: scope });
                        self.push_task(Task::Const(f));
                        return;
                    },
                    None => {},
                }
                match position_of(&self.functions, name) {
                    Some(i) => {
                        let def: &FnDef<'a> = &self.functions[i];
                        let def_name: &'a Name = def.name;
                        let params: &'a Vec<Parameter> = def.params;
                        let body: &'a Expr = def.body;
                        let home: usize = def.home;
                        assert(self@.setup.functions[i as int] == def@);
                        self.push_def(def_name, params, body, home, Ghost(def.fp), args, scope);
                        return;
                    },
                    None => {},
                }
                if is_known(&self.builtins, name) {
                    self.push_task(Task::Builtin { name, args });
                    self.push_all_args(args, scope);
                    return;
                }
                let found: Option<Value> = self.captures.read(&self.store, scope, name.as_str());
                assert(self@ == read(old(self)@, scope, name@).1);
                let nothing: bool = match &found {
                    None => true,
                    Some(Value::Undef) => true,
                    _ => false,
                };
                if nothing {
                    self.warn(cat3("Ignoring unknown function '", name.as_str(), "'"));
                    self.push_task(Task::Const(Value::Undef));
                    return;
                }
            },
            _ => {},
        }
        self.push_task(Task::CallValue { args, caller: scope });
        self.push_task(Task::Eval(callee, scope));
    }

    /// Registers the code of a function value.
    pub(crate) fn add_closure(&mut self, params: &'a Vec<Parameter>, body: &'a Expr) -> (r: usize)
        requires
            run_ok(old(self)@),
        ensures
            r == old(self)@.closures.len(),
            final(self)@ == (State {
                closures: old(self)@.closures.push(
                    crate::machine::Code { params: params@, body: *body },
                ),
                ..old(self)@
            }),
            run_ok(final(self)@),
    {
        let id: usize = self.closures.len();
        self.closures.push(Closure { params, body });
        assert(codes(self.closures@) =~= old(self)@.closures.push(
            crate::machine::Code { params: params@, body: *body },
        ));
        id
    }

    pub(crate) fn push_body(&mut self, body: Option<&'a Expr>, scope: Scope)
        requires
            run_ok(old(self)@),
            scope_ok(old(self)@.store, scope),
        ensures
            final(self)@ == body_step(old(self)@, opt_expr(body), scope),
            run_ok(final(self)@),
    {
        match body {
            Some(b) => {
                self.push_task(Task::Eval(b, scope));
            },
            None => {
                self.push_value(Value::Undef);
            },
        }
    }

    pub(crate) fn push_item(&mut self, body: &'a Expr, scope: Scope)
        requires
            run_ok(old(self)@),
            scope_ok(old(self)@.store, scope),
        ensures
            final(self)@ == item_step(old(self)@, *body, scope),
            run_ok(final(self)@),
    {
        if is_comprehension(body) {
            self.push_task(Task::LcElem(body, scope));
        } else {
            self.push_task(Task::Eval(body, scope));
        }
    }

    pub(crate) fn push_contribution(&mut self, body: &'a Expr, scope: Scope)
        requires
            run_ok(old(self)@),
            scope_ok(old(self)@.store, scope),
        ensures
            final(self)@ == contribution_step(old(self)@, *body, scope),
            run_ok(final(self)@),
    {
        if is_comprehension(body) {
            self.push_task(Task::LcElem(body, scope));
        } else {
            self.push_task(Task::WrapContribution);
            self.push_task(Task::Eval(body, scope));
        }
    }

    /// Takes one expression apart: a leaf gives its value, everything else schedules its parts.
    pub(crate) fn eval_node(&mut self, e: &'a Expr, scope: Scope)
        requires
            run_ok(old(self)@),
            scope_ok(old(self)@.store, scope),
        ensures
            final(self)@ == node_step(old(self)@, *e, scope),
            run_ok(final(self)@),
    {
        match &e.kind {
            ExprKind::Num(n) => {
                self.push_value(Value::Num(*n));
            },
            ExprKind::Bool(b) => {
                self.push_value(Value::Bool(*b));
            },
            ExprKind::Undef => {
                self.push_value(Value::Undef);
            },
            ExprKind::Str(t) => {
                self.push_value(Value::Str(t.clone()));
            },
            ExprKind::Ident(n) => {
                self.resolve_ident(n, scope);
            },
            ExprKind::Unary { op, operand } => {
                self.push_task(Task::Unary(*op));
                self.push_task(Task::Eval(operand, scope));
            },
            ExprKind::Binary { op, lhs, rhs } => {
                if *op == BinOp::And || *op == BinOp::Or {
                    self.push_task(Task::ShortCircuit { op: *op, rhs, scope });
                    self.push_task(Task::Eval(lhs, scope));
                } else {
                    self.push_task(Task::Binary(*op));
                    self.push_task(Task::Eval(rhs, scope));
                    self.push_task(Task::Eval(lhs, scope));
                }
            },
            ExprKind::Ternary { cond, yes, no } => {
                self.push_task(Task::Ternary { yes, no, scope });
                self.push_task(Task::Eval(cond, scope));
            },
            ExprKind::Vector(es) => {
                self.push_task(Task::VectorSplice(es));
                self.push_evals(es, scope);
            },
            ExprKind::Call { callee, args } => {
                self.dispatch_call(callee, args, scope);
            },
            ExprKind::Index { base, index } => {
                self.push_task(Task::Index);
                self.push_task(Task::Eval(index, scope));
                self.push_task(Task::Eval(base, scope));
            },
            ExprKind::Member { base, field } => {
                self.push_task(Task::Member(field));
                self.push_task(Task::Eval(base, scope));
            },
            ExprKind::Range { start, step, end } => {
                self.push_task(Task::Range { stepped: step.is_some() });
                self.push_task(Task::Eval(end, scope));
                match step {
                    Some(p) => {
                        self.push_task(Task::Eval(p, scope));
                    },
                    None => {},
                }
                self.push_task(Task::Eval(start, scope));
            },
            ExprKind::FunctionLiteral { params, body, repr } => {
                let closure_id: usize = self.add_closure(params, body);
                self.push_value(
                    Value::Function {
                        closure_id,
                        env: scope,
                        self_name: None,
                        repr: repr.clone(),
                        group: None,
                        bound_this: None,
                    },
                );
            },
            ExprKind::Let { bindings, body } => {
                if bindings.len() == 0 {
                    self.push_task(Task::Eval(body, scope));
                } else {
                    self.push_task(Task::LetStep { bindings, idx: 0, body, scope });
                    self.push_task(Task::Eval(&bindings[0].value, scope));
                }
            },
            ExprKind::Echo { args, body } => {
                self.push_task(Task::EchoEmit { args, body: unbox(body), scope });
                self.push_all_args(args, scope);
            },
            ExprKind::Assert { args, body, shown } => {
                let (cond, msg) = split_assert_args(args);
                self.push_task(
                    Task::AssertCheck {
                        cond: cond.is_some(),
                        msg,
                        body: unbox(body),
                        shown,
                        scope,
                    },
                );
                match cond {
                    Some(c) => {
                        self.push_task(Task::Eval(c, scope));
                    },
                    None => {},
                }
            },
            ExprKind::LcFor { .. } => {
                self.push_task(Task::LcElem(e, scope));
            },
            ExprKind::LcForC { .. } => {
                self.push_task(Task::LcElem(e, scope));
            },
            ExprKind::LcEach(_) => {
                self.push_task(Task::LcElem(e, scope));
            },
            ExprKind::LcIf { .. } => {
                self.push_task(Task::LcElem(e, scope));
            },
        }
    }

    pub(crate) fn push_cfor_init(
        &mut self,
        init: &'a Vec<Arg>,
        at: usize,
        scope: Scope,
        state: CFor<'a>,
    )
        requires
            run_ok(old(self)@),
            scope_ok(old(self)@.store, scope),
            scope_ok(old(self)@.store, state.outer),
        ensures
            final(self)@ == cfor_init_next(old(self)@, init@, at as int, scope, state@),
            run_ok(final(self)@),
    {
        if at < init.len() {
            self.push_task(Task::CForInit { init, at, scope, state });
            self.push_task(Task::Eval(&init[at].value, scope));
        } else {
            self.push_task(Task::LcForCStep(state));
        }
    }

    /// Takes one element of a vector apart.
    pub(crate) fn eval_elem(&mut self, e: &'a Expr, scope: Scope)
        requires
            run_ok(old(self)@),
            scope_ok(old(self)@.store, scope),
        ensures
            final(self)@ == elem_step(old(self)@, *e, scope),
            run_ok(final(self)@),
    {
        match &e.kind {
            ExprKind::LcFor { bindings, body } => {
                self.push_task(Task::LcForBindings { bindings, at: 0, body, scope });
            },
            ExprKind::LcForC { init, cond, update, body } => {
                let inner: Scope = self.child(scope);
                let vars: Vec<(Name, Value)> = Vec::new();
                let acc: Vec<Value> = Vec::new();
                assert(named_vals(vars@) =~= Seq::empty());
                assert(vals(acc@) =~= Seq::empty());
                let state: CFor<'a> = CFor {
                    cond,
                    update,
                    body,
                    outer: scope,
                    vars,
                    iterations: 0,
                    acc,
                    splice_item: is_comprehension(body),
                };
                self.push_cfor_init(init, 0, inner, state);
            },
            ExprKind::LcEach(inner) => {
                self.push_task(Task::LcEachSplice { splice_inner: is_comprehension(inner) });
                self.push_task(Task::LcElem(inner, scope));
            },
            ExprKind::LcIf { cond, yes, no } => {
                self.push_task(Task::LcIfBranch { yes, no: unbox(no), scope });
                self.push_task(Task::Eval(cond, scope));
            },
            ExprKind::Let { bindings, body } => {
                if bindings.len() == 0 {
                    self.push_task(Task::LcElem(body, scope));
                } else {
                    self.push_task(Task::LcLetStep { bindings, idx: 0, body, scope });
                    self.push_task(Task::Eval(&bindings[0].value, scope));
                }
            },
            _ => {
                self.push_task(Task::Eval(e, scope));
            },
        }
    }
}

/// An optional boxed expression by reference.
fn unbox(b: &Option<Box<Expr>>) -> (r: Option<&Expr>)
    ensures
        opt_expr(r) == (match *b {
            Some(x) => Some(*x),
            None => None,
        }),
{
    match b {
        Some(x) => Some(x),
        None => None,
    }
}

}

//! Evaluating the bindings of scopes, of files and of module calls.

use std::rc::Rc;

use vstd::prelude::*;

use crate::ast::{Arg, Expr, Name, Parameter, Span, Stmt};
use crate::calls::{
    default_counts, default_holds, exprs_of, fill_arg_slots, lemma_counts_alike, matched, named_exprs,
    Matched,
};
use crate::discipline::law_run_keeps_bindings;
use crate::eval::{lemma_grown, Ctx};
use crate::hoist::{
    fn_shape, hoisted_assignments, hoisted_bindings, item_name, items, pairs, scope_assignments,
    scope_bindings, shape, stmts_of, HoistItem, Item,
};
use crate::host::{Answer, Reply};
use crate::iterate::{name_closure, named_value};
use crate::machine::{job_ok, run_ok, setup_ok, sibling_value, Code, Job, Setup, State, Task};
use crate::message::{Error, Failure, Fault, Stop};
use crate::num::{unit, unit_ok, FloatOp};
use crate::run::{eval_in, host, host_ok, started};
use crate::scope::{
    frame_at, fresh_meaning, fresh_store, is_global, meaning, scope_ok, Scope,
};
use crate::step::nested_fn_value;
use crate::value::{siblings, Sibling, SiblingFn, Val, Value};

verus! {

/// A scope, or why there is none.
pub open spec fn scope_res(r: Result<Scope, Error>) -> Result<Scope, Fault> {
    match r {
        Ok(s) => Ok(s),
        Err(e) => Err(e@),
    }
}

/// The code and the group of the functions among the first `n` of some bindings.
pub open spec fn grouped(its: Seq<Item>, n: nat, closures: Seq<Code>) -> (Seq<Code>, Seq<Sibling>)
    decreases n,
{
    if n == 0 {
        (closures, Seq::empty())
    } else {
        let (c, g) = grouped(its, (n - 1) as nat, closures);
        match shape(its[n - 1]) {
            Some(sh) => (
                c.push(Code { params: sh.params, body: sh.body }),
                g.push(Sibling { name: sh.name, closure_id: c.len() as usize, repr: sh.repr }),
            ),
            None => (c, g),
        }
    }
}

/// The state after a scope became the top level of a file.
pub open spec fn published(s: State, island: Option<usize>, scope: Scope) -> State {
    match island {
        Some(i) => if i < s.setup.globals.len() {
            State {
                setup: Setup { globals: s.setup.globals.update(i as int, scope), ..s.setup },
                ..s
            }
        } else {
            s
        },
        None => s,
    }
}

/// Binds the bindings from the `i`-th on, of which the functions are those of the group from the
/// `k`-th on. Each binding is evaluated in the scope that those before it made.
pub open spec fn hoist_from(
    s: State,
    its: Seq<Item>,
    i: int,
    k: int,
    group: Seq<Sibling>,
    scope: Scope,
    island: Option<usize>,
    f: spec_fn(FloatOp, u64, u64) -> u64,
    h: spec_fn(Job, u64, Seq<Seq<char>>) -> Answer,
    n: nat,
) -> (State, Result<Scope, (Fault, Span)>)
    decreases its.len() - i,
{
    if i >= its.len() {
        (s, Ok(scope))
    } else if shape(its[i]) is Some {
        let t = s.binding(scope, item_name(its[i]), sibling_value(group[k], scope, Some(group)));
        hoist_from(
            published(t, island, t.here()),
            its,
            i + 1,
            k + 1,
            group,
            t.here(),
            island,
            f,
            h,
            n,
        )
    } else {
        match its[i] {
            Item::Assign(name, e) => {
                let (t, r) = eval_in(s, e, scope, f, h, n);
                match r {
                    Err(x) => (t, Err((x, e.span))),
                    Ok(v) => {
                        let u = t.binding(scope, name, named_value(v, name));
                        hoist_from(
                            published(u, island, u.here()),
                            its,
                            i + 1,
                            k,
                            group,
                            u.here(),
                            island,
                            f,
                            h,
                            n,
                        )
                    },
                }
            },
            _ => (s, Ok(scope)),
        }
    }
}

/// Binds all bindings of a list, the functions among them as one group.
pub open spec fn hoist_all(
    s: State,
    its: Seq<Item>,
    scope: Scope,
    island: Option<usize>,
    f: spec_fn(FloatOp, u64, u64) -> u64,
    h: spec_fn(Job, u64, Seq<Seq<char>>) -> Answer,
    n: nat,
) -> (State, Result<Scope, (Fault, Span)>) {
    let (closures, group) = grouped(its, its.len(), s.closures);
    hoist_from(State { closures, ..s }, its, 0, 0, group, scope, island, f, h, n)
}

/// The bindings of a scope, in a fresh frame below it.
pub open spec fn hoist_spec(
    s: State,
    ss: Seq<Stmt>,
    scope: Scope,
    f: spec_fn(FloatOp, u64, u64) -> u64,
    h: spec_fn(Job, u64, Seq<Seq<char>>) -> Answer,
    n: nat,
) -> (State, Result<Scope, Fault>) {
    let t = s.child(scope);
    let (u, r) = hoist_all(t, scope_bindings(ss), t.here(), None, f, h, n);
    (
        u,
        match r {
            Ok(sc) => Ok(sc),
            Err((x, _)) => Err(x),
        },
    )
}

/// Assignments as bindings.
pub open spec fn as_items(ps: Seq<(Seq<char>, Expr)>) -> Seq<Item> {
    Seq::new(ps.len(), |i: int| Item::Assign(ps[i].0, ps[i].1))
}

/// The assignments of a file, each published as soon as it is bound. A failure in the root file
/// comes with the place of the assignment that failed.
pub open spec fn publish_spec(
    s: State,
    ss: Seq<Stmt>,
    scope: Scope,
    island: usize,
    f: spec_fn(FloatOp, u64, u64) -> u64,
    h: spec_fn(Job, u64, Seq<Seq<char>>) -> Answer,
    n: nat,
) -> (State, Result<Scope, Stop>) {
    let (t, r) = hoist_all(s, as_items(scope_assignments(ss)), scope, Some(island), f, h, n);
    (
        t,
        match r {
            Ok(sc) => Ok(sc),
            Err((fault, at)) => Err(
                Stop {
                    fault,
                    at: if island == 0 {
                        Some(at)
                    } else {
                        None
                    },
                },
            ),
        },
    )
}

/// An evaluation keeps every scope a scope.
pub proof fn lemma_eval_grows(
    s: State,
    e: Expr,
    scope: Scope,
    f: spec_fn(FloatOp, u64, u64) -> u64,
    h: spec_fn(Job, u64, Seq<Seq<char>>) -> Answer,
    n: nat,
)
    ensures
        eval_in(s, e, scope, f, h, n).0.store.len() >= s.store.len(),
        eval_in(s, e, scope, f, h, n).0.setup == s.setup,
{
    law_run_keeps_bindings(started(s, e, scope), f, h, n);
}

impl<'a> Ctx<'a> {
    /// Registers the functions among some bindings as one group; nothing where there are none.
    pub(crate) fn register_fn_group(&mut self, its: &Vec<HoistItem<'a>>) -> (r: Option<Rc<Vec<SiblingFn>>>)
        requires
            run_ok(old(self)@),
        ensures
            ({
                let (c, g) = grouped(items(its@), its@.len(), old(self)@.closures);
                &&& final(self)@ == (State { closures: c, ..old(self)@ })
                &&& match r {
                    Some(group) => siblings(group@) == g && g.len() > 0,
                    None => g.len() == 0,
                }
            }),
            run_ok(final(self)@),
    {
        let ghost s0 = self@;
        let ghost all = items(its@);
        let mut group: Vec<SiblingFn> = Vec::new();
        assert(siblings(group@) =~= Seq::<Sibling>::empty());
        let mut i: usize = 0;
        while i < its.len()
            invariant
                i <= its@.len(),
                all == items(its@),
                run_ok(self@),
                ({
                    let (c, g) = grouped(all, i as nat, s0.closures);
                    &&& self@ == (State { closures: c, ..s0 })
                    &&& siblings(group@) == g
                }),
            decreases its@.len() - i,
        {
            assert(all[i as int] == its@[i as int]@);
            match fn_shape(&its[i]) {
                Some((name, params, body, repr)) => {
                    let closure_id: usize = self.add_closure(params, body);
                    let ghost before = siblings(group@);
                    let one = SiblingFn { name: name.clone(), closure_id, repr: repr.clone() };
                    group.push(one);
                    assert(siblings(group@) =~= before.push(one@));
                },
                None => {},
            }
            i += 1;
        }
        if group.len() == 0 {
            None
        } else {
            Some(Rc::new(group))
        }
    }

    /// Makes a scope the top level of a file.
    pub(crate) fn publish(&mut self, island: Option<usize>, scope: Scope)
        requires
            run_ok(old(self)@),
            scope_ok(old(self)@.store, scope),
        ensures
            final(self)@ == published(old(self)@, island, scope),
            run_ok(final(self)@),
    {
        let ghost before = self@;
        match island {
            Some(i) => {
                if i < self.globals.len() {
                    self.globals.set(i, scope);
                    assert(self@.setup.globals == before.setup.globals.update(i as int, scope));
                }
            },
            None => {},
        }
        assert(setup_ok(self@.store.len(), self@.setup));
        assert forall|i: int| 0 <= i < self@.tasks.len() implies job_ok(
            self@.store.len(),
            #[trigger] self@.tasks[i],
        ) by {
            assert(self@.tasks[i] == before.tasks[i]);
        }
    }

    fn hoist_items<F: Fn(FloatOp, u64, u64) -> u64, H: Fn(&Task<'a>, u64, &Vec<Name>) -> Reply>(
        &mut self,
        its: &Vec<HoistItem<'a>>,
        start: Scope,
        island: Option<usize>,
        fpu: &F,
        h: &H,
        fuel: u64,
    ) -> (r: Result<Scope, (Error, Span)>)
        requires
            run_ok(old(self)@),
            unit_ok(*fpu),
            host_ok(*h),
            scope_ok(old(self)@.store, start),
        ensures
            ({
                let (t, q) = hoist_all(
                    old(self)@,
                    items(its@),
                    start,
                    island,
                    unit(*fpu),
                    host(*h),
                    fuel as nat,
                );
                &&& final(self)@ == t
                &&& match r {
                    Ok(sc) => q == Ok::<Scope, (Fault, Span)>(sc) && scope_ok(
                        final(self)@.store,
                        sc,
                    ),
                    Err((e, at)) => q == Err::<Scope, (Fault, Span)>((e@, at)),
                }
            }),
            run_ok(final(self)@),
    {
        let group: Option<Rc<Vec<SiblingFn>>> = self.register_fn_group(its);
        let ghost all = items(its@);
        let ghost g = grouped(all, all.len(), old(self)@.closures).1;
        let ghost s0 = self@;
        let mut scope: Scope = start;
        let mut i: usize = 0;
        let mut k: usize = 0;
        proof {
            lemma_shapes(all, all.len(), old(self)@.closures);
        }
        while i < its.len()
            invariant
                i <= its@.len(),
                k <= i,
                all == items(its@),
                all.len() == its@.len(),
                run_ok(self@),
                unit_ok(*fpu),
                host_ok(*h),
                scope_ok(self@.store, scope),
                match group {
                    Some(gr) => siblings(gr@) == g && g.len() > 0,
                    None => g.len() == 0,
                },
                k == shapes_upto(all, i as nat),
                g.len() == shapes_upto(all, all.len()),
                hoist_from(
                    self@,
                    all,
                    i as int,
                    k as int,
                    g,
                    scope,
                    island,
                    unit(*fpu),
                    host(*h),
                    fuel as nat,
                ) == hoist_from(
                    s0,
                    all,
                    0,
                    0,
                    g,
                    start,
                    island,
                    unit(*fpu),
                    host(*h),
                    fuel as nat,
                ),
                s0 == (State {
                    closures: grouped(all, all.len(), old(self)@.closures).0,
                    ..old(self)@
                }),
                g == grouped(all, all.len(), old(self)@.closures).1,
            decreases its@.len() - i,
        {
            let item: &HoistItem<'a> = &its[i];
            assert(all[i as int] == item@);
            proof {
                lemma_shapes_grow(all, i as nat + 1, all.len());
            }
            match fn_shape(item) {
                Some((name, _, _, _)) => {
                    match &group {
                        Some(gr) => {
                            assert(g[k as int] == gr@[k as int]@);
                            let v: Value = nested_fn_value(&gr[k], scope, Some(gr.clone()));
                            scope = self.bind_in(scope, name.clone(), v);
                        },
                        None => {},
                    }
                    self.publish(island, scope);
                    k += 1;
                },
                None => match item {
                    HoistItem::Assign(name, e) => {
                        proof {
                            lemma_eval_grows(
                                self@,
                                **e,
                                scope,
                                unit(*fpu),
                                host(*h),
                                fuel as nat,
                            );
                        }
                        match self.eval_with_ctx(e, scope, fpu, h, fuel) {
                            Ok(v) => {
                                let named: Value = name_closure(v, name);
                                scope = self.bind_in(scope, (*name).clone(), named);
                                self.publish(island, scope);
                            },
                            Err(err) => {
                                return Err((err, e.span));
                            },
                        }
                    },
                    HoistItem::Func { .. } => {},
                },
            }
            i += 1;
        }
        Ok(scope)
    }

    /// Binds the bindings of a scope in a fresh frame below it. Each is evaluated in the scope
    /// that those before it made; the functions among them see each other.
    pub fn hoist_scope<
        F: Fn(FloatOp, u64, u64) -> u64,
        H: Fn(&Task<'a>, u64, &Vec<Name>) -> Reply,
    >(&mut self, stmts: &Vec<&'a Stmt>, scope: Scope, fpu: &F, h: &H, fuel: u64) -> (r: Result<
        Scope,
        Error,
    >)
        requires
            run_ok(old(self)@),
            unit_ok(*fpu),
            host_ok(*h),
            scope_ok(old(self)@.store, scope),
        ensures
            (final(self)@, scope_res(r)) == hoist_spec(
                old(self)@,
                stmts_of(stmts@),
                scope,
                unit(*fpu),
                host(*h),
                fuel as nat,
            ),
            r matches Ok(s) ==> scope_ok(final(self)@.store, s),
            run_ok(final(self)@),
    {
        let inner: Scope = self.child(scope);
        let its: Vec<HoistItem<'a>> = hoisted_bindings(stmts);
        match self.hoist_items(&its, inner, None, fpu, h, fuel) {
            Ok(s) => Ok(s),
            Err((e, _)) => Err(e),
        }
    }

    /// Binds the assignments of a file in its top-level scope, which is published after each of
    /// them, so that a function called by a later one sees it. A failure in the root file comes
    /// with the place of the assignment.
    pub fn hoist_scope_publishing<
        F: Fn(FloatOp, u64, u64) -> u64,
        H: Fn(&Task<'a>, u64, &Vec<Name>) -> Reply,
    >(
        &mut self,
        stmts: &Vec<&'a Stmt>,
        scope: Scope,
        island: usize,
        fpu: &F,
        h: &H,
        fuel: u64,
    ) -> (r: Result<Scope, Failure>)
        requires
            run_ok(old(self)@),
            unit_ok(*fpu),
            host_ok(*h),
            scope_ok(old(self)@.store, scope),
        ensures
            ({
                let (t, q) = publish_spec(
                    old(self)@,
                    stmts_of(stmts@),
                    scope,
                    island,
                    unit(*fpu),
                    host(*h),
                    fuel as nat,
                );
                &&& final(self)@ == t
                &&& match r {
                    Ok(sc) => q == Ok::<Scope, Stop>(sc) && scope_ok(final(self)@.store, sc),
                    Err(e) => q == Err::<Scope, Stop>(e@),
                }
            }),
            run_ok(final(self)@),
    {
        let ps: Vec<(&'a Name, &'a Expr)> = hoisted_assignments(stmts);
        let its: Vec<HoistItem<'a>> = assign_items(&ps);
        match self.hoist_items(&its, scope, Some(island), fpu, h, fuel) {
            Ok(s) => Ok(s),
            Err((error, at)) => if island == 0 {
                Err(Failure { error, at: Some(at) })
            } else {
                Err(Failure { error, at: None })
            },
        }
    }
}

fn assign_items<'a>(ps: &Vec<(&'a Name, &'a Expr)>) -> (r: Vec<HoistItem<'a>>)
    ensures
        items(r@) == as_items(pairs(ps@)),
{
    let mut out: Vec<HoistItem<'a>> = Vec::new();
    let ghost all = as_items(pairs(ps@));
    let mut i: usize = 0;
    while i < ps.len()
        invariant
            i <= ps@.len(),
            all == as_items(pairs(ps@)),
            items(out@) =~= all.take(i as int),
        decreases ps@.len() - i,
    {
        let ghost before = items(out@);
        let item: HoistItem<'a> = HoistItem::Assign(ps[i].0, ps[i].1);
        assert(all[i as int] == item@);
        out.push(item);
        assert(items(out@) =~= before.push(item@));
        i += 1;
    }
    assert(all.take(all.len() as int) =~= all);
    out
}

/// How many of the first `n` bindings bind functions.
pub open spec fn shapes_upto(its: Seq<Item>, n: nat) -> nat
    decreases n,
{
    if n == 0 {
        0
    } else {
        shapes_upto(its, (n - 1) as nat) + if shape(its[n - 1]) is Some {
            1nat
        } else {
            0nat
        }
    }
}

proof fn lemma_shapes(its: Seq<Item>, n: nat, closures: Seq<Code>)
    ensures
        grouped(its, n, closures).1.len() == shapes_upto(its, n),
    decreases n,
{
    if n > 0 {
        lemma_shapes(its, (n - 1) as nat, closures);
    }
}

proof fn lemma_shapes_grow(its: Seq<Item>, a: nat, b: nat)
    requires
        a <= b,
    ensures
        shapes_upto(its, a) <= shapes_upto(its, b),
    decreases b - a,
{
    if a < b {
        lemma_shapes_grow(its, a, (b - 1) as nat);
    }
}

/// Binds the constants of a file from the `i`-th on, publishing the scope after each.
pub open spec fn constants_from(
    s: State,
    ps: Seq<(Seq<char>, Expr)>,
    i: int,
    scope: Scope,
    island: Option<usize>,
    lenient: bool,
    f: spec_fn(FloatOp, u64, u64) -> u64,
    h: spec_fn(Job, u64, Seq<Seq<char>>) -> Answer,
    n: nat,
) -> (State, Result<Scope, Fault>)
    decreases ps.len() - i,
{
    if i >= ps.len() {
        (s, Ok(scope))
    } else {
        let (name, e) = ps[i];
        let (t, r) = eval_in(s, e, scope, f, h, n);
        match r {
            Err(e) => if lenient {
                constants_from(t, ps, i + 1, scope, island, lenient, f, h, n)
            } else {
                (t, Err(e))
            },
            Ok(v) => {
                let u = t.binding(scope, name, named_value(v, name));
                constants_from(
                    published(u, island, u.here()),
                    ps,
                    i + 1,
                    u.here(),
                    island,
                    lenient,
                    f,
                    h,
                    n,
                )
            },
        }
    }
}

/// The state with one root scope more, its newest one: it knows the constants and settings that
/// every file starts with, and whether this is a preview where that is asked for.
pub open spec fn rooted(s: State, preview: Option<bool>) -> State {
    State { store: fresh_store(s.store, preview), ..s }
}

impl<'a> Ctx<'a> {
    /// A fresh root scope.
    pub fn fresh_root(&mut self, preview: Option<bool>) -> (r: Scope)
        requires
            run_ok(old(self)@),
        ensures
            final(self)@ == rooted(old(self)@, preview),
            r == final(self)@.here(),
            r.at >= old(self)@.store.len(),
            scope_ok(final(self)@.store, r),
            is_global(final(self)@.store, frame_at(final(self)@.store, r.at as int) as int),
            forall|n: Seq<char>| #[trigger]
                meaning(final(self)@.store, r, n) == fresh_meaning(preview, n),
            run_ok(final(self)@),
    {
        let ghost before = self@;
        let r: Scope = match preview {
            Some(p) => Scope::new_with_preview(&mut self.store, p),
            None => Scope::new(&mut self.store),
        };
        proof {
            lemma_grown(before, self@);
        }
        r
    }

    /// Binds the constants of a file, publishing the scope after each. Where `lenient` is set, a
    /// constant that fails is passed over.
    pub fn bind_constants<
        F: Fn(FloatOp, u64, u64) -> u64,
        H: Fn(&Task<'a>, u64, &Vec<Name>) -> Reply,
    >(
        &mut self,
        ps: &Vec<(&'a Name, &'a Expr)>,
        start: Scope,
        island: Option<usize>,
        lenient: bool,
        fpu: &F,
        h: &H,
        fuel: u64,
    ) -> (r: Result<Scope, Error>)
        requires
            run_ok(old(self)@),
            unit_ok(*fpu),
            host_ok(*h),
            scope_ok(old(self)@.store, start),
        ensures
            (final(self)@, scope_res(r)) == constants_from(
                old(self)@,
                pairs(ps@),
                0,
                start,
                island,
                lenient,
                unit(*fpu),
                host(*h),
                fuel as nat,
            ),
            r matches Ok(s) ==> scope_ok(final(self)@.store, s),
            run_ok(final(self)@),
    {
        let ghost all = pairs(ps@);
        let ghost s0 = self@;
        let mut scope: Scope = start;
        let mut i: usize = 0;
        while i < ps.len()
            invariant
                i <= ps@.len(),
                all == pairs(ps@),
                s0 == old(self)@,
                run_ok(self@),
                unit_ok(*fpu),
                host_ok(*h),
                scope_ok(self@.store, scope),
                constants_from(
                    self@,
                    all,
                    i as int,
                    scope,
                    island,
                    lenient,
                    unit(*fpu),
                    host(*h),
                    fuel as nat,
                ) == constants_from(
                    s0,
                    all,
                    0,
                    start,
                    island,
                    lenient,
                    unit(*fpu),
                    host(*h),
                    fuel as nat,
                ),
            decreases ps@.len() - i,
        {
            let name: &'a Name = ps[i].0;
            let e: &'a Expr = ps[i].1;
            assert(all[i as int] == (name@, *e));
            proof {
                lemma_eval_grows(self@, *e, scope, unit(*fpu), host(*h), fuel as nat);
            }
            match self.eval_with_ctx(e, scope, fpu, h, fuel) {
                Ok(v) => {
                    let named: Value = name_closure(v, name);
                    scope = self.bind_in(scope, name.clone(), named);
                    self.publish(island, scope);
                },
                Err(err) => {
                    if !lenient {
                        return Err(err);
                    }
                },
            }
            i += 1;
        }
        Ok(scope)
    }

    /// The top level of a file that is used: its constants, bound in order in a fresh root scope
    /// and published one by one.
    pub fn build_island_global<
        F: Fn(FloatOp, u64, u64) -> u64,
        H: Fn(&Task<'a>, u64, &Vec<Name>) -> Reply,
    >(
        &mut self,
        island: usize,
        assignments: &Vec<(&'a Name, &'a Expr)>,
        preview: bool,
        fpu: &F,
        h: &H,
        fuel: u64,
    ) -> (r: Result<Scope, Error>)
        requires
            run_ok(old(self)@),
            unit_ok(*fpu),
            host_ok(*h),
        ensures
            (final(self)@, scope_res(r)) == constants_from(
                rooted(old(self)@, Some(preview)),
                pairs(assignments@),
                0,
                rooted(old(self)@, Some(preview)).here(),
                Some(island),
                false,
                unit(*fpu),
                host(*h),
                fuel as nat,
            ),
            r matches Ok(s) ==> scope_ok(final(self)@.store, s),
            run_ok(final(self)@),
    {
        let root: Scope = self.fresh_root(Some(preview));
        self.bind_constants(assignments, root, Some(island), false, fpu, h, fuel)
    }
}

/// Evaluates the defaults of the parameters, from the `i`-th on, that no argument fills, where the
/// module was defined, and binds those that count; a parameter without a default has `undef`.
pub open spec fn defaults_from(
    s: State,
    params: Seq<Parameter>,
    m: Matched,
    i: int,
    scope: Scope,
    global: Scope,
    f: spec_fn(FloatOp, u64, u64) -> u64,
    h: spec_fn(Job, u64, Seq<Seq<char>>) -> Answer,
    n: nat,
) -> (State, Result<Scope, Fault>)
    decreases params.len() - i,
{
    if i >= params.len() {
        (s, Ok(scope))
    } else if m.slots[i] is Some {
        defaults_from(s, params, m, i + 1, scope, global, f, h, n)
    } else {
        let (t, r) = match params[i].default {
            Some(d) => eval_in(s, d, global, f, h, n),
            None => (s, Ok(Val::Undef)),
        };
        match r {
            Err(e) => (t, Err(e)),
            Ok(v) => if default_counts(params, m.slots, i) {
                let u = t.binding(scope, params[i].name@, v);
                defaults_from(u, params, m, i + 1, u.here(), global, f, h, n)
            } else {
                defaults_from(t, params, m, i + 1, scope, global, f, h, n)
            },
        }
    }
}

/// Binds the parameters, from the `i`-th on, that an argument fills, evaluated where the module is
/// called.
pub open spec fn arguments_from(
    s: State,
    params: Seq<Parameter>,
    m: Matched,
    i: int,
    scope: Scope,
    caller: Scope,
    f: spec_fn(FloatOp, u64, u64) -> u64,
    h: spec_fn(Job, u64, Seq<Seq<char>>) -> Answer,
    n: nat,
) -> (State, Result<Scope, Fault>)
    decreases params.len() - i,
{
    if i >= params.len() {
        (s, Ok(scope))
    } else {
        match m.slots[i] {
            None => arguments_from(s, params, m, i + 1, scope, caller, f, h, n),
            Some(e) => {
                let (t, r) = eval_in(s, e, caller, f, h, n);
                match r {
                    Err(e) => (t, Err(e)),
                    Ok(v) => {
                        let u = t.binding(scope, params[i].name@, v);
                        arguments_from(u, params, m, i + 1, u.here(), caller, f, h, n)
                    },
                }
            },
        }
    }
}

/// Binds what is bound beside the parameters, from the `i`-th on.
pub open spec fn extras_from(
    s: State,
    m: Matched,
    i: int,
    scope: Scope,
    caller: Scope,
    f: spec_fn(FloatOp, u64, u64) -> u64,
    h: spec_fn(Job, u64, Seq<Seq<char>>) -> Answer,
    n: nat,
) -> (State, Result<Scope, Fault>)
    decreases m.extra.len() - i,
{
    if i >= m.extra.len() {
        (s, Ok(scope))
    } else {
        let (t, r) = eval_in(s, m.extra[i].1, caller, f, h, n);
        match r {
            Err(e) => (t, Err(e)),
            Ok(v) => {
                let u = t.binding(scope, m.extra[i].0, v);
                extras_from(u, m, i + 1, u.here(), caller, f, h, n)
            },
        }
    }
}

/// The scope of a module call: the defaults that count first, then the arguments over them, then what is
/// bound beside the parameters.
pub open spec fn module_scope(
    s: State,
    params: Seq<Parameter>,
    args: Seq<Arg>,
    caller: Scope,
    global: Scope,
    f: spec_fn(FloatOp, u64, u64) -> u64,
    h: spec_fn(Job, u64, Seq<Seq<char>>) -> Answer,
    n: nat,
) -> (State, Result<Scope, Fault>) {
    let m = matched(params, args, args.len());
    let s1 = s.frame(global, caller);
    let (s2, r2) = defaults_from(s1, params, m, 0, s1.here(), global, f, h, n);
    match r2 {
        Err(e) => (s2, Err(e)),
        Ok(c2) => {
            let (s3, r3) = arguments_from(s2, params, m, 0, c2, caller, f, h, n);
            match r3 {
                Err(e) => (s3, Err(e)),
                Ok(c3) => extras_from(s3, m, 0, c3, caller, f, h, n),
            }
        },
    }
}

impl<'a> Ctx<'a> {
    fn bind_defaults<F: Fn(FloatOp, u64, u64) -> u64, H: Fn(&Task<'a>, u64, &Vec<Name>) -> Reply>(
        &mut self,
        params: &'a Vec<Parameter>,
        slots: &Vec<Option<&'a Expr>>,
        Ghost(m): Ghost<Matched>,
        start: Scope,
        global: Scope,
        fpu: &F,
        h: &H,
        fuel: u64,
    ) -> (r: Result<Scope, Error>)
        requires
            run_ok(old(self)@),
            unit_ok(*fpu),
            host_ok(*h),
            scope_ok(old(self)@.store, start),
            scope_ok(old(self)@.store, global),
            slots@.len() == params@.len(),
            exprs_of(slots@) == m.slots,
        ensures
            (final(self)@, scope_res(r)) == defaults_from(
                old(self)@,
                params@,
                m,
                0,
                start,
                global,
                unit(*fpu),
                host(*h),
                fuel as nat,
            ),
            r matches Ok(s) ==> scope_ok(final(self)@.store, s),
            final(self)@.store.len() >= old(self)@.store.len(),
            run_ok(final(self)@),
    {
        let ghost s0 = self@;
        let mut scope: Scope = start;
        let mut i: usize = 0;
        while i < params.len()
            invariant
                i <= params@.len(),
                s0 == old(self)@,
                slots@.len() == params@.len(),
                exprs_of(slots@) == m.slots,
                run_ok(self@),
                unit_ok(*fpu),
                host_ok(*h),
                scope_ok(self@.store, scope),
                scope_ok(s0.store, global),
                self@.store.len() >= s0.store.len(),
                defaults_from(
                    self@,
                    params@,
                    m,
                    i as int,
                    scope,
                    global,
                    unit(*fpu),
                    host(*h),
                    fuel as nat,
                ) == defaults_from(
                    s0,
                    params@,
                    m,
                    0,
                    start,
                    global,
                    unit(*fpu),
                    host(*h),
                    fuel as nat,
                ),
            decreases params@.len() - i,
        {
            assert(exprs_of(slots@)[i as int] == m.slots[i as int]);
            if slots[i].is_none() {
                let v: Value = match &params[i].default {
                    Some(d) => {
                        proof {
                            lemma_eval_grows(
                                self@,
                                *d,
                                global,
                                unit(*fpu),
                                host(*h),
                                fuel as nat,
                            );
                        }
                        match self.eval_with_ctx(d, global, fpu, h, fuel) {
                            Ok(v) => v,
                            Err(e) => {
                                return Err(e);
                            },
                        }
                    },
                    None => Value::Undef,
                };
                proof {
                    assert forall|k: int| 0 <= k < slots@.len() implies slots@[k] is Some
                        == #[trigger] m.slots[k] is Some by {
                        assert(exprs_of(slots@)[k] == m.slots[k]);
                    }
                    lemma_counts_alike(params@, slots@, m.slots, i as int);
                }
                if default_holds(params, slots, i) {
                    scope = self.bind_in(scope, params[i].name.clone(), v);
                }
            }
            i += 1;
        }
        Ok(scope)
    }

    fn bind_arguments<F: Fn(FloatOp, u64, u64) -> u64, H: Fn(&Task<'a>, u64, &Vec<Name>) -> Reply>(
        &mut self,
        params: &'a Vec<Parameter>,
        slots: &Vec<Option<&'a Expr>>,
        Ghost(m): Ghost<Matched>,
        start: Scope,
        caller: Scope,
        fpu: &F,
        h: &H,
        fuel: u64,
    ) -> (r: Result<Scope, Error>)
        requires
            run_ok(old(self)@),
            unit_ok(*fpu),
            host_ok(*h),
            scope_ok(old(self)@.store, start),
            scope_ok(old(self)@.store, caller),
            slots@.len() == params@.len(),
            exprs_of(slots@) == m.slots,
        ensures
            (final(self)@, scope_res(r)) == arguments_from(
                old(self)@,
                params@,
                m,
                0,
                start,
                caller,
                unit(*fpu),
                host(*h),
                fuel as nat,
            ),
            r matches Ok(s) ==> scope_ok(final(self)@.store, s),
            final(self)@.store.len() >= old(self)@.store.len(),
            run_ok(final(self)@),
    {
        let ghost s0 = self@;
        let mut scope: Scope = start;
        let mut i: usize = 0;
        while i < params.len()
            invariant
                i <= params@.len(),
                s0 == old(self)@,
                slots@.len() == params@.len(),
                exprs_of(slots@) == m.slots,
                run_ok(self@),
                unit_ok(*fpu),
                host_ok(*h),
                scope_ok(self@.store, scope),
                scope_ok(s0.store, caller),
                self@.store.len() >= s0.store.len(),
                arguments_from(
                    self@,
                    params@,
                    m,
                    i as int,
                    scope,
                    caller,
                    unit(*fpu),
                    host(*h),
                    fuel as nat,
                ) == arguments_from(
                    s0,
                    params@,
                    m,
                    0,
                    start,
                    caller,
                    unit(*fpu),
                    host(*h),
                    fuel as nat,
                ),
            decreases params@.len() - i,
        {
            assert(exprs_of(slots@)[i as int] == m.slots[i as int]);
            match slots[i] {
                Some(e) => {
                    proof {
                        lemma_eval_grows(self@, *e, caller, unit(*fpu), host(*h), fuel as nat);
                    }
                    match self.eval_with_ctx(e, caller, fpu, h, fuel) {
                        Ok(v) => {
                            scope = self.bind_in(scope, params[i].name.clone(), v);
                        },
                        Err(e) => {
                            return Err(e);
                        },
                    }
                },
                None => {},
            }
            i += 1;
        }
        Ok(scope)
    }

    fn bind_extras<F: Fn(FloatOp, u64, u64) -> u64, H: Fn(&Task<'a>, u64, &Vec<Name>) -> Reply>(
        &mut self,
        extra: &Vec<(Name, &'a Expr)>,
        Ghost(m): Ghost<Matched>,
        start: Scope,
        caller: Scope,
        fpu: &F,
        h: &H,
        fuel: u64,
    ) -> (r: Result<Scope, Error>)
        requires
            run_ok(old(self)@),
            unit_ok(*fpu),
            host_ok(*h),
            scope_ok(old(self)@.store, start),
            scope_ok(old(self)@.store, caller),
            named_exprs(extra@) == m.extra,
        ensures
            (final(self)@, scope_res(r)) == extras_from(
                old(self)@,
                m,
                0,
                start,
                caller,
                unit(*fpu),
                host(*h),
                fuel as nat,
            ),
            r matches Ok(s) ==> scope_ok(final(self)@.store, s),
            final(self)@.store.len() >= old(self)@.store.len(),
            run_ok(final(self)@),
    {
        let ghost s0 = self@;
        let mut scope: Scope = start;
        let mut i: usize = 0;
        assert(m.extra.len() == named_exprs(extra@).len());
        while i < extra.len()
            invariant
                i <= extra@.len(),
                extra@.len() == m.extra.len(),
                s0 == old(self)@,
                named_exprs(extra@) == m.extra,
                run_ok(self@),
                unit_ok(*fpu),
                host_ok(*h),
                scope_ok(self@.store, scope),
                scope_ok(s0.store, caller),
                self@.store.len() >= s0.store.len(),
                extras_from(
                    self@,
                    m,
                    i as int,
                    scope,
                    caller,
                    unit(*fpu),
                    host(*h),
                    fuel as nat,
                ) == extras_from(s0, m, 0, start, caller, unit(*fpu), host(*h), fuel as nat),
            decreases extra@.len() - i,
        {
            let e: &'a Expr = extra[i].1;
            assert(m.extra[i as int] == (extra@[i as int].0@, *e)) by {
                assert(named_exprs(extra@)[i as int] == m.extra[i as int]);
            }
            proof {
                lemma_eval_grows(self@, *e, caller, unit(*fpu), host(*h), fuel as nat);
            }
            match self.eval_with_ctx(e, caller, fpu, h, fuel) {
                Ok(v) => {
                    scope = self.bind_in(scope, extra[i].0.clone(), v);
                },
                Err(e) => {
                    return Err(e);
                },
            }
            i += 1;
        }
        Ok(scope)
    }

    /// The scope of a module call: a fresh frame below the module's file and the caller, with all
    /// defaults bound first, then the arguments over them, then what is bound beside the
    /// parameters.
    pub fn bind_module_scope<
        F: Fn(FloatOp, u64, u64) -> u64,
        H: Fn(&Task<'a>, u64, &Vec<Name>) -> Reply,
    >(
        &mut self,
        params: &'a Vec<Parameter>,
        args: &'a Vec<Arg>,
        caller: Scope,
        global: Scope,
        fpu: &F,
        h: &H,
        fuel: u64,
    ) -> (r: Result<Scope, Error>)
        requires
            run_ok(old(self)@),
            unit_ok(*fpu),
            host_ok(*h),
            scope_ok(old(self)@.store, caller),
            scope_ok(old(self)@.store, global),
        ensures
            (final(self)@, scope_res(r)) == module_scope(
                old(self)@,
                params@,
                args@,
                caller,
                global,
                unit(*fpu),
                host(*h),
                fuel as nat,
            ),
            r matches Ok(s) ==> scope_ok(final(self)@.store, s),
            run_ok(final(self)@),
    {
        let (slots, extra) = fill_arg_slots(params, args);
        let ghost m = matched(params@, args@, args@.len());
        let fresh: Scope = self.frame(global, caller);
        let defaulted: Scope = match self.bind_defaults(
            params,
            &slots,
            Ghost(m),
            fresh,
            global,
            fpu,
            h,
            fuel,
        ) {
            Ok(s) => s,
            Err(e) => {
                return Err(e);
            },
        };
        let filled: Scope = match self.bind_arguments(
            params,
            &slots,
            Ghost(m),
            defaulted,
            caller,
            fpu,
            h,
            fuel,
        ) {
            Ok(s) => s,
            Err(e) => {
                return Err(e);
            },
        };
        self.bind_extras(&extra, Ghost(m), filled, caller, fpu, h, fuel)
    }
}

}

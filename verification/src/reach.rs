//! What a task gives, and how a run comes from one state to another.
//!
//! Here evaluation is spoken of without counting steps, and mostly of runs without a budget: what
//! a budget does to a run is said in [`crate::budget`].

use vstd::prelude::*;

use crate::ast::Expr;
use crate::balance::{
    law_answer_discipline, law_step_discipline, leads_to, takes,
};
use crate::discipline::{law_answer_keeps_bindings, law_step_keeps_bindings};
use crate::host::{resumed, Answer};
use crate::machine::{
    node_step, perform, perform_binding, perform_call, perform_console, perform_cycle,
    perform_element, perform_plain, step, Job, Sig, State,
};
use crate::message::Fault;
use crate::num::FloatOp;
use crate::parts::{atop, law_answer_leaves_what_is_below, law_step_leaves_what_is_below};
use crate::run::{back, eval_in, law_more_steps_change_nothing, misfit, run_from, started};
use crate::scope::Scope;
use crate::value::Val;

verus! {

/// What a run has around it: the float unit and the host.
pub struct Around {
    pub f: spec_fn(FloatOp, u64, u64) -> u64,
    pub h: spec_fn(Job, u64, Seq<Seq<char>>) -> Answer,
}

/// A run of one task on its own.
pub open spec fn alone(s: State, j: Job) -> State {
    State { tasks: seq![j], values: Seq::empty(), ..s }
}

/// A task on its own ends within `n` steps, with a result and a state.
pub open spec fn ends_at(
    s: State,
    j: Job,
    w: Around,
    n: nat,
    t: State,
    r: Result<Val, Fault>,
) -> bool {
    let x = run_from(alone(s, j), w.f, w.h, n);
    &&& r != Err::<Val, Fault>(Fault::Unfinished)
    &&& x.1 == r
    &&& back(s, x.0) == t
}

/// What a task on its own gives, and the state it leaves.
pub open spec fn gives(s: State, j: Job, w: Around, t: State, r: Result<Val, Fault>) -> bool {
    exists|n: nat| #[trigger] ends_at(s, j, w, n, t, r)
}

/// What an expression gives in a scope, and the state it leaves.
pub open spec fn yields(
    s: State,
    e: Expr,
    scope: Scope,
    w: Around,
    t: State,
    r: Result<Val, Fault>,
) -> bool {
    gives(s, Job::Eval(e, scope), w, t, r)
}

/// The state after a step, and after the answer where the step asks for one; none where the run
/// ends.
spec fn next(s: State, w: Around) -> Option<State> {
    let (t, sig) = step(s, w.f);
    match sig {
        Sig::Running => Some(t),
        Sig::Remember { .. } => Some(t),
        Sig::Asking => match resumed(t, (w.h)(t.tasks.last(), t.draws, t.modules)) {
            None => None,
            Some((u, Sig::Failed(_))) => None,
            Some((u, _)) => Some(u),
        },
        _ => None,
    }
}

/// The state after `k` steps none of which ends the run.
spec fn goes(s: State, w: Around, k: nat) -> Option<State>
    decreases k,
{
    if k == 0 {
        Some(s)
    } else {
        match next(s, w) {
            Some(t) => goes(t, w, (k - 1) as nat),
            None => None,
        }
    }
}

/// A run comes from one state to another.
pub closed spec fn reaches(s: State, w: Around, t: State) -> bool {
    exists|k: nat| #[trigger] goes(s, w, k) == Some(t)
}

proof fn lemma_goes_run(s: State, w: Around, k: nat, m: nat)
    requires
        goes(s, w, k) is Some,
    ensures
        run_from(s, w.f, w.h, k + m) == run_from(goes(s, w, k)->Some_0, w.f, w.h, m),
    decreases k,
{
    if k > 0 {
        lemma_goes_run(next(s, w)->Some_0, w, (k - 1) as nat, m);
    }
}

proof fn lemma_goes_add(s: State, w: Around, k: nat, m: nat)
    requires
        goes(s, w, k) is Some,
    ensures
        goes(s, w, k + m) == goes(goes(s, w, k)->Some_0, w, m),
    decreases k,
{
    if k > 0 {
        lemma_goes_add(next(s, w)->Some_0, w, (k - 1) as nat, m);
    }
}

pub proof fn lemma_reaches_on(s: State, w: Around, t: State, u: State)
    requires
        reaches(s, w, t),
        reaches(t, w, u),
    ensures
        reaches(s, w, u),
{
    let k = choose|k: nat| #[trigger] goes(s, w, k) == Some(t);
    let m = choose|m: nat| #[trigger] goes(t, w, m) == Some(u);
    lemma_goes_add(s, w, k, m);
}

proof fn lemma_reaches_next(s: State, w: Around, t: State)
    requires
        next(s, w) == Some(t),
    ensures
        reaches(s, w, t),
{
    assert(goes(t, w, 0) == Some(t));
    assert(goes(s, w, 1) == Some(t));
}

/// A step that asks leaves the request.
proof fn lemma_asks(s: State, f: spec_fn(FloatOp, u64, u64) -> u64)
    ensures
        step(s, f).1 is Asking ==> step(s, f).0.tasks.len() > 0,
{
    reveal(step);
    reveal(perform_plain);
    reveal(perform_call);
    reveal(perform_console);
    reveal(perform_element);
    reveal(perform_cycle);
    reveal(perform_binding);
}

/// A step to a next state keeps how many values the run leads to, and the setup.
proof fn lemma_next(s: State, w: Around)
    requires
        leads_to(s) is Some,
        next(s, w) is Some,
    ensures
        leads_to(next(s, w)->Some_0) == leads_to(s),
        s.tasks.len() > 0,
        next(s, w)->Some_0.setup == s.setup,
{
    if s.tasks.len() == 0 {
        reveal(step);
    }
    law_step_discipline(s, w.f);
    law_step_keeps_bindings(s, w.f);
    let (t, sig) = step(s, w.f);
    if sig is Asking {
        let a = (w.h)(t.tasks.last(), t.draws, t.modules);
        law_answer_discipline(t, a);
        law_answer_keeps_bindings(t, a);
    }
}

proof fn lemma_next_atop(s: State, w: Around, ts: Seq<Job>, vs: Seq<Val>)
    requires
        leads_to(s) is Some,
        next(s, w) is Some,
    ensures
        next(atop(s, ts, vs), w) == Some(atop(next(s, w)->Some_0, ts, vs)),
{
    lemma_next(s, w);
    law_step_leaves_what_is_below(s, ts, vs, w.f);
    lemma_asks(s, w.f);
    let (t, sig) = step(s, w.f);
    if sig is Asking {
        let a = (w.h)(t.tasks.last(), t.draws, t.modules);
        assert((ts + t.tasks).last() == t.tasks.last());
        law_answer_leaves_what_is_below(t, ts, vs, a);
    }
}

proof fn lemma_goes_atop(s: State, w: Around, k: nat, ts: Seq<Job>, vs: Seq<Val>)
    requires
        leads_to(s) is Some,
        goes(s, w, k) is Some,
    ensures
        goes(atop(s, ts, vs), w, k) == Some(atop(goes(s, w, k)->Some_0, ts, vs)),
        goes(s, w, k)->Some_0.setup == s.setup,
        leads_to(goes(s, w, k)->Some_0) == leads_to(s),
    decreases k,
{
    if k > 0 {
        lemma_next(s, w);
        lemma_next_atop(s, w, ts, vs);
        lemma_goes_atop(next(s, w)->Some_0, w, (k - 1) as nat, ts, vs);
    }
}

/// The last state of a run that ends within `n` steps.
proof fn lemma_last_state(s: State, w: Around, n: nat) -> (y: State)
    requires
        run_from(s, w.f, w.h, n).1 != Err::<Val, Fault>(Fault::Unfinished),
    ensures
        reaches(s, w, y),
        next(y, w) is None,
        run_from(y, w.f, w.h, 1) == run_from(s, w.f, w.h, n),
    decreases n,
{
    match next(s, w) {
        None => {
            assert(goes(s, w, 0) == Some(s));
            law_more_steps_change_nothing(s, w.f, w.h, 1, n);
            s
        },
        Some(t) => {
            let y = lemma_last_state(t, w, (n - 1) as nat);
            lemma_reaches_next(s, w, t);
            lemma_reaches_on(s, w, t, y);
            y
        },
    }
}

/// A run with a task on top of other work.
pub open spec fn on(s: State, ts: Seq<Job>, vs: Seq<Val>) -> State {
    State { tasks: ts, values: vs, ..s }
}

proof fn lemma_alone(s: State, j: Job, ts: Seq<Job>, vs: Seq<Val>)
    requires
        takes(j) == 0,
    ensures
        leads_to(alone(s, j)) == Some(1nat),
        atop(alone(s, j), ts, vs) == on(s, ts.push(j), vs),
{
    let a = alone(s, j);
    assert(a.tasks.drop_last() =~= Seq::<Job>::empty());
    assert(crate::balance::height(a.tasks.drop_last(), 1) == Some(1nat));
    assert(ts + a.tasks =~= ts.push(j));
    assert(vs + a.values =~= vs);
}

/// A task that gives a value has, on top of other work, put that value on top of it.
pub proof fn lemma_part(s: State, j: Job, w: Around, t: State, v: Val, ts: Seq<Job>, vs: Seq<Val>)
    requires
        takes(j) == 0,
        gives(s, j, w, t, Ok(v)),
    ensures
        reaches(on(s, ts.push(j), vs), w, on(t, ts, vs.push(v))),
        t.setup == s.setup,
        t.tasks == s.tasks,
        t.values == s.values,
{
    let a = alone(s, j);
    lemma_alone(s, j, ts, vs);
    let n = choose|n: nat| #[trigger] ends_at(s, j, w, n, t, Ok(v));
    let y = lemma_last_state(a, w, n);
    let k = choose|k: nat| #[trigger] goes(a, w, k) == Some(y);
    lemma_goes_atop(a, w, k, ts, vs);
    if y.tasks.len() > 0 {
        law_step_discipline(y, w.f);
        assert(run_from(y, w.f, w.h, 1).1 is Ok);
        let z = step(y, w.f);
        assert(run_from(z.0, w.f, w.h, 0).1 is Err);
        assert(false);
    }
    reveal(step);
    assert(run_from(y, w.f, w.h, 1) == (y.popped(), Ok::<Val, Fault>(y.top())));
    assert(y.values.len() == 1);
    assert(ts + y.tasks =~= ts);
    assert(vs + y.values =~= vs.push(v));
    assert(atop(y, ts, vs) == on(t, ts, vs.push(v)));
}

/// Where a part fails, the whole fails in the same way.
pub proof fn lemma_fails(
    o: State,
    jo: Job,
    w: Around,
    s: State,
    j: Job,
    t: State,
    x: Fault,
    ts: Seq<Job>,
    vs: Seq<Val>,
)
    requires
        takes(j) == 0,
        gives(s, j, w, t, Err(x)),
        reaches(alone(o, jo), w, on(s, ts.push(j), vs)),
        o.tasks == s.tasks,
        o.values == s.values,
    ensures
        gives(o, jo, w, t, Err(x)),
{
    let a = alone(s, j);
    lemma_alone(s, j, ts, vs);
    let n = choose|n: nat| #[trigger] ends_at(s, j, w, n, t, Err(x));
    let y = lemma_last_state(a, w, n);
    let k = choose|k: nat| #[trigger] goes(a, w, k) == Some(y);
    lemma_goes_atop(a, w, k, ts, vs);
    let z = atop(y, ts, vs);
    assert(reaches(on(s, ts.push(j), vs), w, z));
    lemma_reaches_on(alone(o, jo), w, on(s, ts.push(j), vs), z);
    if y.tasks.len() == 0 {
        reveal(step);
        assert(false);
    }
    law_step_leaves_what_is_below(y, ts, vs, w.f);
    law_step_discipline(y, w.f);
    lemma_asks(y, w.f);
    let (u, sig) = step(y, w.f);
    let end = run_from(y, w.f, w.h, 1);
    assert(run_from(u, w.f, w.h, 0).1 == Err::<Val, Fault>(Fault::Unfinished));
    if sig is Asking {
        let ans = (w.h)(u.tasks.last(), u.draws, u.modules);
        assert((ts + u.tasks).last() == u.tasks.last());
        law_answer_leaves_what_is_below(u, ts, vs, ans);
        match resumed(u, ans) {
            Some((q, _)) => {
                assert(run_from(q, w.f, w.h, 0).1 == Err::<Val, Fault>(Fault::Unfinished));
            },
            None => {},
        }
    }
    assert(run_from(z, w.f, w.h, 1) == (atop(end.0, ts, vs), end.1));
    let b = choose|b: nat| #[trigger] goes(alone(o, jo), w, b) == Some(z);
    lemma_goes_run(alone(o, jo), w, b, 1);
    assert(back(o, atop(end.0, ts, vs)) == t);
    assert(ends_at(o, jo, w, b + 1, t, Err(x)));
}

/// A run that has come to one value and no task ends with it.
pub proof fn lemma_ends(o: State, jo: Job, w: Around, y: State, v: Val)
    requires
        reaches(alone(o, jo), w, y),
        y.tasks.len() == 0,
        y.values == seq![v],
    ensures
        gives(o, jo, w, back(o, y), Ok(v)),
{
    reveal(step);
    let b = choose|b: nat| #[trigger] goes(alone(o, jo), w, b) == Some(y);
    lemma_goes_run(alone(o, jo), w, b, 1);
    assert(run_from(y, w.f, w.h, 1) == (y.popped(), Ok::<Val, Fault>(v)));
    assert(back(o, y.popped()) == back(o, y));
    assert(ends_at(o, jo, w, b + 1, back(o, y), Ok(v)));
}

/// Without a budget a step is what its task does.
proof fn lemma_does(s: State, j: Job, ts: Seq<Job>, vs: Seq<Val>, w: Around)
    requires
        s.setup.budget is None,
        perform(on(s, ts, vs), j, w.f).1 is Running || perform(on(s, ts, vs), j, w.f).1 is Remember,
    ensures
        reaches(on(s, ts.push(j), vs), w, perform(on(s, ts, vs), j, w.f).0),
{
    reveal(step);
    let a = on(s, ts.push(j), vs);
    assert(a.tasks.drop_last() =~= ts);
    lemma_reaches_next(a, w, perform(on(s, ts, vs), j, w.f).0);
}

/// The evaluation of an expression begins by taking it apart.
pub proof fn lemma_begins(s: State, e: Expr, scope: Scope, w: Around)
    requires
        s.setup.budget is None,
    ensures
        reaches(
            alone(s, Job::Eval(e, scope)),
            w,
            node_step(on(s, Seq::empty(), Seq::empty()), e, scope),
        ),
{
    let j = Job::Eval(e, scope);
    lemma_does(s, j, Seq::empty(), Seq::empty(), w);
    assert(alone(s, j).tasks =~= Seq::<Job>::empty().push(j));
}

/// The evaluation of an expression in some number of steps, where it ends, is what the expression
/// yields.
pub proof fn law_evaluation_yields(s: State, e: Expr, scope: Scope, w: Around, n: nat)
    requires
        eval_in(s, e, scope, w.f, w.h, n).1 != Err::<Val, Fault>(Fault::Unfinished),
    ensures
        yields(
            s,
            e,
            scope,
            w,
            eval_in(s, e, scope, w.f, w.h, n).0,
            eval_in(s, e, scope, w.f, w.h, n).1,
        ),
{
    let (t, r) = eval_in(s, e, scope, w.f, w.h, n);
    assert(started(s, e, scope) == alone(s, Job::Eval(e, scope)));
    assert(ends_at(s, Job::Eval(e, scope), w, n, t, r));
}

/// An expression yields one thing only.
pub proof fn law_one_outcome(
    s: State,
    e: Expr,
    scope: Scope,
    w: Around,
    t: State,
    r: Result<Val, Fault>,
    u: State,
    q: Result<Val, Fault>,
)
    requires
        yields(s, e, scope, w, t, r),
        yields(s, e, scope, w, u, q),
    ensures
        t == u,
        r == q,
{
    let j = Job::Eval(e, scope);
    let n = choose|n: nat| #[trigger] ends_at(s, j, w, n, t, r);
    let m = choose|m: nat| #[trigger] ends_at(s, j, w, m, u, q);
    if n <= m {
        law_more_steps_change_nothing(alone(s, j), w.f, w.h, n, m);
    } else {
        law_more_steps_change_nothing(alone(s, j), w.f, w.h, m, n);
    }
}

/// A run that reaches a part, on its own, reaches the state with the part's value.
pub proof fn lemma_then(
    a: State,
    s: State,
    j: Job,
    w: Around,
    t: State,
    v: Val,
    ts: Seq<Job>,
    vs: Seq<Val>,
)
    requires
        takes(j) == 0,
        reaches(a, w, on(s, ts.push(j), vs)),
        gives(s, j, w, t, Ok(v)),
    ensures
        reaches(a, w, on(t, ts, vs.push(v))),
        t.setup == s.setup,
        t.tasks == s.tasks,
        t.values == s.values,
{
    lemma_part(s, j, w, t, v, ts, vs);
    lemma_reaches_on(a, w, on(s, ts.push(j), vs), on(t, ts, vs.push(v)));
}

/// A run that reaches a task reaches what the task does.
pub proof fn lemma_do(a: State, s: State, j: Job, w: Around, ts: Seq<Job>, vs: Seq<Val>)
    requires
        s.setup.budget is None,
        reaches(a, w, on(s, ts.push(j), vs)),
        perform(on(s, ts, vs), j, w.f).1 is Running || perform(on(s, ts, vs), j, w.f).1 is Remember,
    ensures
        reaches(a, w, perform(on(s, ts, vs), j, w.f).0),
{
    lemma_does(s, j, ts, vs, w);
    lemma_reaches_on(a, w, on(s, ts.push(j), vs), perform(on(s, ts, vs), j, w.f).0);
}

/// A run that has come to a part and one task over it.
pub proof fn lemma_over(
    o: State,
    jo: Job,
    w: Around,
    s: State,
    k: Job,
    part: Job,
    t: State,
    r: Result<Val, Fault>,
)
    requires
        s.setup.budget is None,
        takes(part) == 0,
        reaches(alone(o, jo), w, on(s, seq![k, part], Seq::empty())),
        gives(s, part, w, t, r),
        r matches Ok(a) ==> perform(on(t, Seq::empty(), seq![a]), k, w.f).1 is Running,
        s.tasks == o.tasks,
        s.values == o.values,
    ensures
        match r {
            Ok(a) => {
                &&& reaches(alone(o, jo), w, perform(on(t, Seq::empty(), seq![a]), k, w.f).0)
                &&& t.setup == s.setup
                &&& t.tasks == s.tasks
                &&& t.values == s.values
            },
            Err(x) => gives(o, jo, w, t, Err(x)),
        },
{
    let nil = Seq::<Val>::empty();
    let one = Seq::<Job>::empty().push(k);
    assert(seq![k, part] =~= one.push(part));
    match r {
        Ok(a) => {
            lemma_then(alone(o, jo), s, part, w, t, a, one, nil);
            assert(nil.push(a) =~= seq![a]);
            lemma_do(alone(o, jo), t, k, w, Seq::empty(), seq![a]);
        },
        Err(x) => {
            lemma_fails(o, jo, w, s, part, t, x, one, nil);
        },
    }
}

/// A run that has come to one part as its only task ends as the part does.
pub proof fn lemma_tail(
    s: State,
    jo: Job,
    w: Around,
    t: State,
    part: Job,
    u: State,
    r: Result<Val, Fault>,
)
    requires
        takes(part) == 0,
        reaches(alone(s, jo), w, on(t, seq![part], Seq::empty())),
        gives(t, part, w, u, r),
        t.tasks == s.tasks,
        t.values == s.values,
    ensures
        gives(s, jo, w, u, r),
{
    let none = Seq::<Job>::empty();
    assert(seq![part] =~= none.push(part));
    match r {
        Ok(v) => {
            lemma_then(alone(s, jo), t, part, w, u, v, none, Seq::empty());
            let y = on(u, none, Seq::<Val>::empty().push(v));
            assert(y.values =~= seq![v]);
            lemma_ends(s, jo, w, y, v);
            assert(back(s, y) == u);
        },
        Err(x) => {
            lemma_fails(s, jo, w, t, part, u, x, none, Seq::empty());
        },
    }
}

/// A task on its own begins with what it does.
pub proof fn lemma_starts(s: State, j: Job, w: Around)
    requires
        s.setup.budget is None,
        perform(on(s, Seq::empty(), Seq::empty()), j, w.f).1 is Running,
    ensures
        reaches(alone(s, j), w, perform(on(s, Seq::empty(), Seq::empty()), j, w.f).0),
{
    lemma_does(s, j, Seq::empty(), Seq::empty(), w);
    assert(alone(s, j).tasks =~= Seq::<Job>::empty().push(j));
}

/// A given value is what it is, and a missing one is `undef`.
pub proof fn law_given_value(s: State, v: Val, w: Around)
    requires
        s.setup.budget is None,
    ensures
        gives(s, Job::Const(v), w, s, Ok(v)),
        gives(s, Job::PushUndef, w, s, Ok(Val::Undef)),
{
    reveal(perform_plain);
    let bare = on(s, Seq::empty(), Seq::empty());
    lemma_starts(s, Job::Const(v), w);
    lemma_starts(s, Job::PushUndef, w);
    assert(bare.value(v).values =~= seq![v]);
    assert(bare.value(Val::Undef).values =~= seq![Val::Undef]);
    lemma_ends(s, Job::Const(v), w, bare.value(v), v);
    lemma_ends(s, Job::PushUndef, w, bare.value(Val::Undef), Val::Undef);
    assert(back(s, bare.value(v)) == s);
    assert(back(s, bare.value(Val::Undef)) == s);
}

/// What the first `n` tasks of a row give, worked off from the last of them to the first, each in
/// the state that the one before it left; and the state in the end. The row stops at a failure.
pub open spec fn row_gives(
    s: State,
    js: Seq<Job>,
    n: nat,
    w: Around,
    t: State,
    r: Result<Seq<Val>, Fault>,
) -> bool
    decreases n,
{
    if n == 0 {
        t == s && r == Ok::<Seq<Val>, Fault>(Seq::empty())
    } else {
        exists|u: State, q: Result<Val, Fault>|
            #[trigger] gives(s, js[n - 1], w, u, q) && match (q, r) {
                (Err(x), _) => t == u && r == Err::<Seq<Val>, Fault>(x),
                (Ok(a), Ok(vs)) => vs.len() > 0 && vs[0] == a && row_gives(
                    u,
                    js,
                    (n - 1) as nat,
                    w,
                    t,
                    Ok(vs.drop_first()),
                ),
                (Ok(a), Err(_)) => row_gives(u, js, (n - 1) as nat, w, t, r),
            }
    }
}

/// Tasks that find nothing on the stack.
pub open spec fn self_contained(js: Seq<Job>) -> bool {
    forall|i: int| 0 <= i < js.len() ==> takes(#[trigger] js[i]) == 0
}

pub proof fn lemma_row(
    a: State,
    s: State,
    js: Seq<Job>,
    n: nat,
    w: Around,
    t: State,
    xs: Seq<Val>,
    ts: Seq<Job>,
    vs: Seq<Val>,
)
    requires
        n <= js.len(),
        self_contained(js),
        reaches(a, w, on(s, ts + js.take(n as int), vs)),
        row_gives(s, js, n, w, t, Ok(xs)),
    ensures
        reaches(a, w, on(t, ts, vs + xs)),
        xs.len() == n,
        t.setup == s.setup,
        t.tasks == s.tasks,
        t.values == s.values,
    decreases n,
{
    if n == 0 {
        assert(ts + js.take(0) =~= ts);
        assert(vs + xs =~= vs);
    } else {
        let j = js[n - 1];
        let m = (n - 1) as nat;
        let below = ts + js.take(m as int);
        assert(ts + js.take(n as int) =~= below.push(j));
        let (u, q) = choose|u: State, q: Result<Val, Fault>|
            #[trigger] gives(s, js[n - 1], w, u, q) && match (q, Ok::<Seq<Val>, Fault>(xs)) {
                (Err(x), _) => t == u && Ok::<Seq<Val>, Fault>(xs) == Err::<Seq<Val>, Fault>(x),
                (Ok(a), Ok(vs)) => vs.len() > 0 && vs[0] == a && row_gives(
                    u,
                    js,
                    (n - 1) as nat,
                    w,
                    t,
                    Ok(vs.drop_first()),
                ),
                (Ok(a), Err(_)) => row_gives(u, js, (n - 1) as nat, w, t, Ok(xs)),
            };
        let v = xs[0];
        lemma_then(a, s, j, w, u, v, below, vs);
        lemma_row(a, u, js, m, w, t, xs.drop_first(), ts, vs.push(v));
        assert(vs.push(v) + xs.drop_first() =~= vs + xs);
    }
}

pub proof fn lemma_row_fails(
    o: State,
    jo: Job,
    s: State,
    js: Seq<Job>,
    n: nat,
    w: Around,
    t: State,
    x: Fault,
    ts: Seq<Job>,
    vs: Seq<Val>,
)
    requires
        n <= js.len(),
        self_contained(js),
        reaches(alone(o, jo), w, on(s, ts + js.take(n as int), vs)),
        row_gives(s, js, n, w, t, Err(x)),
        s.tasks == o.tasks,
        s.values == o.values,
    ensures
        gives(o, jo, w, t, Err(x)),
    decreases n,
{
    if n > 0 {
        let j = js[n - 1];
        let m = (n - 1) as nat;
        let below = ts + js.take(m as int);
        assert(ts + js.take(n as int) =~= below.push(j));
        let r = Err::<Seq<Val>, Fault>(x);
        let (u, q) = choose|u: State, q: Result<Val, Fault>|
            #[trigger] gives(s, js[n - 1], w, u, q) && match (q, r) {
                (Err(x), _) => t == u && r == Err::<Seq<Val>, Fault>(x),
                (Ok(a), Ok(vs)) => vs.len() > 0 && vs[0] == a && row_gives(
                    u,
                    js,
                    (n - 1) as nat,
                    w,
                    t,
                    Ok(vs.drop_first()),
                ),
                (Ok(a), Err(_)) => row_gives(u, js, (n - 1) as nat, w, t, r),
            };
        match q {
            Err(y) => {
                lemma_fails(o, jo, w, s, j, t, x, below, vs);
            },
            Ok(v) => {
                lemma_then(alone(o, jo), s, j, w, u, v, below, vs);
                lemma_row_fails(o, jo, u, js, m, w, t, x, ts, vs.push(v));
            },
        }
    }
}

/// A run that comes to a task which fails ends with that failure.
pub proof fn lemma_stops(
    o: State,
    jo: Job,
    w: Around,
    s: State,
    j: Job,
    x: Fault,
    ts: Seq<Job>,
    vs: Seq<Val>,
)
    requires
        s.setup.budget is None,
        reaches(alone(o, jo), w, on(s, ts.push(j), vs)),
        perform(on(s, ts, vs), j, w.f).1 == Sig::Failed(x),
        x != Fault::Unfinished,
    ensures
        gives(o, jo, w, back(o, perform(on(s, ts, vs), j, w.f).0), Err(x)),
{
    reveal(step);
    let a = on(s, ts.push(j), vs);
    assert(a.tasks.drop_last() =~= ts);
    let y = perform(on(s, ts, vs), j, w.f).0;
    assert(run_from(a, w.f, w.h, 1) == (y, Err::<Val, Fault>(x)));
    let b = choose|b: nat| #[trigger] goes(alone(o, jo), w, b) == Some(a);
    lemma_goes_run(alone(o, jo), w, b, 1);
    assert(ends_at(o, jo, w, b + 1, back(o, y), Err(x)));
}

/// A run that has come to a task which asks goes on with the answer.
pub proof fn lemma_asked(
    a: State,
    w: Around,
    s: State,
    j: Job,
    ts: Seq<Job>,
    vs: Seq<Val>,
    u: State,
)
    requires
        s.setup.budget is None,
        reaches(a, w, on(s, ts.push(j), vs)),
        perform(on(s, ts, vs), j, w.f).1 is Asking,
        ({
            let y = perform(on(s, ts, vs), j, w.f).0;
            let got = resumed(y, (w.h)(y.tasks.last(), y.draws, y.modules));
            got is Some && got->Some_0.0 == u && !(got->Some_0.1 is Failed)
        }),
    ensures
        reaches(a, w, u),
{
    reveal(step);
    let b = on(s, ts.push(j), vs);
    assert(b.tasks.drop_last() =~= ts);
    lemma_reaches_next(b, w, u);
    lemma_reaches_on(a, w, b, u);
}

/// A run that asks, and is failed by the answer or gets none that fits, ends with that failure.
pub proof fn lemma_refused(
    o: State,
    jo: Job,
    w: Around,
    s: State,
    j: Job,
    ts: Seq<Job>,
    vs: Seq<Val>,
    u: State,
    x: Fault,
)
    requires
        s.setup.budget is None,
        reaches(alone(o, jo), w, on(s, ts.push(j), vs)),
        perform(on(s, ts, vs), j, w.f).1 is Asking,
        ({
            let y = perform(on(s, ts, vs), j, w.f).0;
            let got = resumed(y, (w.h)(y.tasks.last(), y.draws, y.modules));
            ||| got is None && u == y && x == misfit()
            ||| got == Some((u, Sig::Failed(x)))
        }),
        x != Fault::Unfinished,
    ensures
        gives(o, jo, w, back(o, u), Err(x)),
{
    reveal(step);
    let a = on(s, ts.push(j), vs);
    assert(a.tasks.drop_last() =~= ts);
    assert(run_from(a, w.f, w.h, 1) == (u, Err::<Val, Fault>(x)));
    let b = choose|b: nat| #[trigger] goes(alone(o, jo), w, b) == Some(a);
    lemma_goes_run(alone(o, jo), w, b, 1);
    assert(ends_at(o, jo, w, b + 1, back(o, u), Err(x)));
}

}

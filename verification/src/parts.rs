//! Evaluation by parts: what stands on the stacks below a piece of work does not touch it, so the
//! machine evaluates an expression from the values of its parts, as if by recursion.

use vstd::prelude::*;

use crate::ast::{Arg, Expr, Parameter};
use crate::balance::{law_step_discipline, leads_to, takes};
use crate::host::{resumed, Answer};
use crate::machine::{
    call_step, charged, collected, costs, dispatch, each_from, elem_step, enter, let_bind,
    node_step, perform, perform_binding, perform_call, perform_console, perform_cycle,
    perform_element, perform_plain, step, uncompiled, Entering, Job, Sig, State,
};
use crate::num::FloatOp;
use crate::scope::Scope;
use crate::value::Val;

verus! {

/// The same state on top of other work: the tasks `ts` and the values `vs` lie below.
pub open spec fn atop(s: State, ts: Seq<Job>, vs: Seq<Val>) -> State {
    State { tasks: ts + s.tasks, values: vs + s.values, ..s }
}

/// The end of a step on top of other work.
pub open spec fn end_atop(x: (State, Sig), ts: Seq<Job>, vs: Seq<Val>) -> (State, Sig) {
    (atop(x.0, ts, vs), x.1)
}

broadcast proof fn lemma_task(s: State, ts: Seq<Job>, vs: Seq<Val>, j: Job)
    ensures
        #[trigger] atop(s, ts, vs).task(j) == atop(s.task(j), ts, vs),
{
    assert((ts + s.tasks).push(j) =~= ts + s.tasks.push(j));
}

broadcast proof fn lemma_tasks(s: State, ts: Seq<Job>, vs: Seq<Val>, js: Seq<Job>)
    ensures
        #[trigger] atop(s, ts, vs).tasks(js) == atop(s.tasks(js), ts, vs),
{
    assert((ts + s.tasks) + js =~= ts + (s.tasks + js));
}

broadcast proof fn lemma_value(s: State, ts: Seq<Job>, vs: Seq<Val>, v: Val)
    ensures
        #[trigger] atop(s, ts, vs).value(v) == atop(s.value(v), ts, vs),
{
    assert((vs + s.values).push(v) =~= vs + s.values.push(v));
}

broadcast proof fn lemma_top(s: State, ts: Seq<Job>, vs: Seq<Val>)
    requires
        s.values.len() > 0,
    ensures
        #[trigger] atop(s, ts, vs).top() == s.top(),
{
}

broadcast proof fn lemma_popped(s: State, ts: Seq<Job>, vs: Seq<Val>)
    requires
        s.values.len() > 0,
    ensures
        #[trigger] atop(s, ts, vs).popped() == atop(s.popped(), ts, vs),
{
    assert((vs + s.values).drop_last() =~= vs + s.values.drop_last());
}

broadcast proof fn lemma_top_n(s: State, ts: Seq<Job>, vs: Seq<Val>, n: nat)
    requires
        n <= s.values.len(),
    ensures
        #[trigger] atop(s, ts, vs).top_n(n) == s.top_n(n),
{
    assert(atop(s, ts, vs).top_n(n) =~= s.top_n(n));
}

broadcast proof fn lemma_popped_n(s: State, ts: Seq<Job>, vs: Seq<Val>, n: nat)
    requires
        n <= s.values.len(),
    ensures
        #[trigger] atop(s, ts, vs).popped_n(n) == atop(s.popped_n(n), ts, vs),
{
    assert(atop(s, ts, vs).popped_n(n).values =~= vs + s.popped_n(n).values);
}

broadcast group group_atop {
    lemma_task,
    lemma_tasks,
    lemma_value,
    lemma_top,
    lemma_popped,
    lemma_top_n,
    lemma_popped_n,
}

proof fn lemma_call_step(
    s: State,
    ts: Seq<Job>,
    vs: Seq<Val>,
    params: Seq<Parameter>,
    body: Expr,
    args: Seq<Arg>,
    caller: Scope,
    base: Scope,
    name: Option<Seq<char>>,
    this: Option<Val>,
)
    ensures
        call_step(atop(s, ts, vs), params, body, args, caller, base, name, this) == atop(
            call_step(s, params, body, args, caller, base, name, this),
            ts,
            vs,
        ),
{
    broadcast use group_atop;

}

proof fn lemma_dispatch(
    s: State,
    ts: Seq<Job>,
    vs: Seq<Val>,
    callee: Expr,
    args: Seq<Arg>,
    scope: Scope,
)
    ensures
        dispatch(atop(s, ts, vs), callee, args, scope) == atop(
            dispatch(s, callee, args, scope),
            ts,
            vs,
        ),
{
    broadcast use group_atop;

    match callee.kind {
        crate::ast::ExprKind::Ident(n) => {
            let (m, t) = crate::machine::read(s, scope, n@);
            let (mm, tt) = crate::machine::read(atop(s, ts, vs), scope, n@);
            assert(tt == atop(t, ts, vs));
            let w = crate::message::Line::Warning("Ignoring unknown function '"@ + n@ + "'"@);
            assert(tt.say(w) == atop(t.say(w), ts, vs));
        },
        _ => {},
    }
}

proof fn lemma_node(s: State, ts: Seq<Job>, vs: Seq<Val>, e: Expr, scope: Scope)
    ensures
        node_step(atop(s, ts, vs), e, scope) == atop(node_step(s, e, scope), ts, vs),
{
    broadcast use group_atop;

    match e.kind {
        crate::ast::ExprKind::Call { callee, args } => {
            lemma_dispatch(s, ts, vs, *callee, args@, scope);
        },
        crate::ast::ExprKind::Ident(n) => {
            let (m, t) = crate::machine::read(s, scope, n@);
            let (mm, tt) = crate::machine::read(atop(s, ts, vs), scope, n@);
            assert(tt == atop(t, ts, vs));
            let w = crate::message::Line::Warning("Ignoring unknown variable '"@ + n@ + "'"@);
            assert(tt.say(w) == atop(t.say(w), ts, vs));
        },
        crate::ast::ExprKind::FunctionLiteral { params, body, repr } => {
            let code = crate::machine::Code { params: params@, body: *body };
            let t = State { closures: s.closures.push(code), ..s };
            assert((State { closures: s.closures.push(code), ..atop(s, ts, vs) }) == atop(
                t,
                ts,
                vs,
            ));
        },
        _ => {},
    }
}

proof fn lemma_elem(s: State, ts: Seq<Job>, vs: Seq<Val>, e: Expr, scope: Scope)
    ensures
        elem_step(atop(s, ts, vs), e, scope) == atop(elem_step(s, e, scope), ts, vs),
{
    broadcast use group_atop;

    assert(atop(s, ts, vs).child(scope) == atop(s.child(scope), ts, vs));
}

proof fn lemma_plain(
    s: State,
    ts: Seq<Job>,
    vs: Seq<Val>,
    j: Job,
    f: spec_fn(FloatOp, u64, u64) -> u64,
)
    requires
        takes(j) <= s.values.len(),
    ensures
        perform_plain(atop(s, ts, vs), j, f) == end_atop(perform_plain(s, j, f), ts, vs),
{
    broadcast use group_atop;

    reveal(perform_plain);
    match j {
        Job::Binary(op) => {
            let (v, w) = crate::ops::combined(op, s.popped().top(), s.top(), f);
            let t = s.popped().popped();
            assert(atop(t, ts, vs).warned(w) == atop(t.warned(w), ts, vs));
        },
        Job::Unary(op) => {
            let (v, w) = crate::ops::transformed(op, s.top(), f);
            let t = s.popped();
            assert(atop(t, ts, vs).warned(w) == atop(t.warned(w), ts, vs));
        },
        _ => {},
    }
}

proof fn lemma_enter(s: State, ts: Seq<Job>, vs: Seq<Val>, c: Entering, token: Option<u64>)
    ensures
        enter(atop(s, ts, vs), c, token) == end_atop(enter(s, c, token), ts, vs),
{
    broadcast use group_atop;

    if s.live_calls < crate::machine::MAX_CALL_DEPTH {
        let up = State { live_calls: (s.live_calls + 1) as u32, ..s };
        assert((State { live_calls: (s.live_calls + 1) as u32, ..atop(s, ts, vs) }) == atop(
            up,
            ts,
            vs,
        ));
        let t = up.task(Job::CallReturn);
        let u = match token {
            Some(k) => t.task(Job::CacheStore { token: k, snap: crate::machine::snap_of(s) }),
            None => t,
        };
        let (st, scope) = crate::machine::call_scope(u.store, c);
        assert((State { store: st, ..atop(u, ts, vs) }) == atop(State { store: st, ..u }, ts, vs));
    }
}

proof fn lemma_uncompiled(s: State, ts: Seq<Job>, vs: Seq<Val>, c: Entering)
    ensures
        uncompiled(atop(s, ts, vs), c) == end_atop(uncompiled(s, c), ts, vs),
{
    broadcast use group_atop;

    lemma_enter(s, ts, vs, c, None);
}

proof fn lemma_call(
    s: State,
    ts: Seq<Job>,
    vs: Seq<Val>,
    j: Job,
    f: spec_fn(FloatOp, u64, u64) -> u64,
)
    requires
        takes(j) <= s.values.len(),
    ensures
        perform_call(atop(s, ts, vs), j, f) == end_atop(perform_call(s, j, f), ts, vs),
{
    broadcast use group_atop;

    reveal(perform_call);
    match j {
        Job::Apply { names, provided, body, base, caller, name } => {
            lemma_uncompiled(
                s.popped_n(names.len()),
                ts,
                vs,
                Entering { names, provided, vals: s.top_n(names.len()), body, base, caller, name },
            );
        },
        Job::CallValue { args, caller } => {
            match s.top() {
                Val::Function { closure_id, env, self_name, repr, group, bound_this } => {
                    let (st, base) = crate::machine::callee_base(
                        s.store,
                        s.top(),
                        env,
                        self_name,
                        group,
                    );
                    let t = State { store: st, ..s.popped() };
                    assert((State { store: st, ..atop(s.popped(), ts, vs) }) == atop(t, ts, vs));
                    let code = s.closures[closure_id as int];
                    lemma_call_step(
                        t,
                        ts,
                        vs,
                        code.params,
                        code.body,
                        args,
                        caller,
                        base,
                        None,
                        match bound_this {
                            Some(ms) => Some(Val::Object(ms)),
                            None => None,
                        },
                    );
                },
                _ => {},
            }
        },
        _ => {},
    }
}

proof fn lemma_console(
    s: State,
    ts: Seq<Job>,
    vs: Seq<Val>,
    j: Job,
    f: spec_fn(FloatOp, u64, u64) -> u64,
)
    requires
        takes(j) <= s.values.len(),
    ensures
        perform_console(atop(s, ts, vs), j, f) == end_atop(perform_console(s, j, f), ts, vs),
{
    broadcast use group_atop;

    reveal(perform_console);
    match j {
        Job::AssertVerdict { impure_before, .. } => {
            let t = State { impure_reads: impure_before, ..s.popped() };
            assert((State { impure_reads: impure_before, ..atop(s.popped(), ts, vs) }) == atop(
                t,
                ts,
                vs,
            ));
        },
        _ => {},
    }
}

proof fn lemma_each(
    s: State,
    ts: Seq<Job>,
    vs: Seq<Val>,
    cs: Seq<Val>,
    i: int,
    out: Seq<Val>,
    f: spec_fn(FloatOp, u64, u64) -> u64,
)
    ensures
        each_from(atop(s, ts, vs), cs, i, out, f) == (
            atop(each_from(s, cs, i, out, f).0, ts, vs),
            each_from(s, cs, i, out, f).1,
            each_from(s, cs, i, out, f).2,
        ),
    decreases cs.len() - i,
{
    if i < cs.len() {
        let n = crate::iterate::item_count(cs[i], f) as u64;
        let (t, fault) = charged(s, n);
        assert(charged(atop(s, ts, vs), n) == (atop(t, ts, vs), fault));
        if fault is None {
            let w = crate::iterate::items_warning(cs[i], f);
            assert(atop(t, ts, vs).warned(w) == atop(t.warned(w), ts, vs));
            lemma_each(
                t.warned(w),
                ts,
                vs,
                cs,
                i + 1,
                out + crate::iterate::items_of(cs[i], f),
                f,
            );
        }
    }
}

proof fn lemma_collected(
    s: State,
    ts: Seq<Job>,
    vs: Seq<Val>,
    acc: Seq<Val>,
    splice_item: bool,
    f: spec_fn(FloatOp, u64, u64) -> u64,
)
    requires
        s.values.len() > 0,
    ensures
        collected(atop(s, ts, vs), acc, splice_item, f) == (
            atop(collected(s, acc, splice_item, f).0, ts, vs),
            collected(s, acc, splice_item, f).1,
        ),
{
    broadcast use group_atop;

    let w = crate::iterate::items_warning(s.top(), f);
    assert(atop(s.popped(), ts, vs).warned(w) == atop(s.popped().warned(w), ts, vs));
}

proof fn lemma_element(
    s: State,
    ts: Seq<Job>,
    vs: Seq<Val>,
    j: Job,
    f: spec_fn(FloatOp, u64, u64) -> u64,
)
    requires
        takes(j) <= s.values.len(),
    ensures
        perform_element(atop(s, ts, vs), j, f) == end_atop(perform_element(s, j, f), ts, vs),
{
    broadcast use group_atop;

    reveal(perform_element);
    match j {
        Job::LcEachSplice { splice_inner } => {
            let inner = s.top();
            let w = crate::iterate::items_warning(inner, f);
            let t = if splice_inner {
                s.popped().warned(w)
            } else {
                s.popped()
            };
            assert(atop(s.popped(), ts, vs).warned(w) == atop(s.popped().warned(w), ts, vs));
            let cs = if splice_inner {
                crate::iterate::items_of(inner, f)
            } else {
                seq![inner]
            };
            lemma_each(t, ts, vs, cs, 0, Seq::empty(), f);
        },
        Job::LcForStart { bindings, at, body, scope } => {
            let n = crate::iterate::item_count(s.top(), f) as u64;
            let w = crate::iterate::items_warning(s.top(), f);
            let (t, fault) = charged(s.popped(), n);
            assert(charged(atop(s.popped(), ts, vs), n) == (atop(t, ts, vs), fault));
            let u = t.child(scope);
            assert(atop(t, ts, vs).child(scope) == atop(u, ts, vs));
            assert(atop(u, ts, vs).warned(w) == atop(u.warned(w), ts, vs));
        },
        Job::LcForNext { bindings, at, body, var, items, next, frame, acc, splice_item, pending } => {
            if pending {
                lemma_collected(s, ts, vs, acc, splice_item, f);
            }
            let t = if pending {
                collected(s, acc, splice_item, f).0
            } else {
                s
            };
            if next < items.len() {
                let u = t.binding(frame, var, items[next as int]);
                assert(atop(t, ts, vs).binding(frame, var, items[next as int]) == atop(u, ts, vs));
            }
        },
        _ => {},
    }
}

proof fn lemma_cycle(
    s: State,
    ts: Seq<Job>,
    vs: Seq<Val>,
    j: Job,
    f: spec_fn(FloatOp, u64, u64) -> u64,
)
    requires
        takes(j) <= s.values.len(),
    ensures
        perform_cycle(atop(s, ts, vs), j, f) == end_atop(perform_cycle(s, j, f), ts, vs),
{
    broadcast use group_atop;

    reveal(perform_cycle);
    match j {
        Job::CForInit { init, at, scope, state } => {
            let name = crate::machine::bound_name(init[at as int]);
            let t = s.popped().binding(scope, name, s.top());
            assert(atop(s.popped(), ts, vs).binding(scope, name, s.top()) == atop(t, ts, vs));
        },
        Job::LcForCStep(state) => {
            let t = s.child(state.outer);
            assert(atop(s, ts, vs).child(state.outer) == atop(t, ts, vs));
            let (st, scope) = crate::machine::bind_vars(
                t.store,
                t.here(),
                state.vars,
                state.vars.len(),
            );
            assert((State { store: st, ..atop(t, ts, vs) }) == atop(
                State { store: st, ..t },
                ts,
                vs,
            ));
        },
        Job::LcForCUpdate { loop_scope, state } => {
            lemma_collected(s, ts, vs, state.acc, state.splice_item, f);
        },
        Job::CForSet { at, loop_scope, state } => {
            let name = crate::machine::bound_name(state.update[at as int]);
            let t = s.popped().binding(loop_scope, name, s.top());
            assert(atop(s.popped(), ts, vs).binding(loop_scope, name, s.top()) == atop(t, ts, vs));
        },
        _ => {},
    }
}

proof fn lemma_let_bind(
    s: State,
    ts: Seq<Job>,
    vs: Seq<Val>,
    bindings: Seq<Arg>,
    idx: int,
    v: Val,
    scope: Scope,
)
    ensures
        let_bind(atop(s, ts, vs), bindings, idx, v, scope) == (
            atop(let_bind(s, bindings, idx, v, scope).0, ts, vs),
            let_bind(s, bindings, idx, v, scope).1,
        ),
{
    let t = s.child(scope);
    assert(atop(s, ts, vs).child(scope) == atop(t, ts, vs));
}

proof fn lemma_binding(
    s: State,
    ts: Seq<Job>,
    vs: Seq<Val>,
    j: Job,
    f: spec_fn(FloatOp, u64, u64) -> u64,
)
    requires
        takes(j) <= s.values.len(),
    ensures
        perform_binding(atop(s, ts, vs), j, f) == end_atop(perform_binding(s, j, f), ts, vs),
{
    broadcast use group_atop;

    reveal(perform_binding);
    match j {
        Job::LetStep { bindings, idx, body, scope } => {
            lemma_let_bind(s.popped(), ts, vs, bindings, idx as int, s.top(), scope);
        },
        Job::LcLetStep { bindings, idx, body, scope } => {
            lemma_let_bind(s.popped(), ts, vs, bindings, idx as int, s.top(), scope);
        },
        _ => {},
    }
}

proof fn lemma_perform(
    s: State,
    ts: Seq<Job>,
    vs: Seq<Val>,
    j: Job,
    f: spec_fn(FloatOp, u64, u64) -> u64,
)
    requires
        takes(j) <= s.values.len(),
    ensures
        perform(atop(s, ts, vs), j, f) == end_atop(perform(s, j, f), ts, vs),
{
    broadcast use lemma_task;

    lemma_plain(s, ts, vs, j, f);
    lemma_call(s, ts, vs, j, f);
    lemma_console(s, ts, vs, j, f);
    lemma_element(s, ts, vs, j, f);
    lemma_cycle(s, ts, vs, j, f);
    lemma_binding(s, ts, vs, j, f);
    match j {
        Job::Eval(e, scope) => {
            lemma_node(s, ts, vs, e, scope);
        },
        Job::LcElem(e, scope) => {
            lemma_elem(s, ts, vs, e, scope);
        },
        _ => {},
    }
}

/// What lies below a piece of work does not touch the next step of it.
pub proof fn law_step_leaves_what_is_below(
    s: State,
    ts: Seq<Job>,
    vs: Seq<Val>,
    f: spec_fn(FloatOp, u64, u64) -> u64,
)
    requires
        leads_to(s) is Some,
        s.tasks.len() > 0,
    ensures
        step(atop(s, ts, vs), f) == end_atop(step(s, f), ts, vs),
{
    law_step_discipline(s, f);
    reveal(step);
    let j = s.tasks.last();
    let t = State { tasks: s.tasks.drop_last(), ..s };
    assert((ts + s.tasks).drop_last() =~= ts + s.tasks.drop_last());
    let (u, fault) = if costs(j) {
        charged(t, 1)
    } else {
        (t, None)
    };
    lemma_perform(u, ts, vs, j, f);
}

/// What lies below a piece of work does not touch how it goes on with an answer.
pub proof fn law_answer_leaves_what_is_below(s: State, ts: Seq<Job>, vs: Seq<Val>, a: Answer)
    requires
        s.tasks.len() > 0,
    ensures
        resumed(atop(s, ts, vs), a) == match resumed(s, a) {
            Some(x) => Some(end_atop(x, ts, vs)),
            None => None,
        },
{
    broadcast use group_atop;

    reveal(resumed);
    let t = State { tasks: s.tasks.drop_last(), ..s };
    assert((ts + s.tasks).drop_last() =~= ts + s.tasks.drop_last());
    let tt = State { tasks: (ts + s.tasks).drop_last(), ..atop(s, ts, vs) };
    assert(tt == atop(t, ts, vs));
    match (s.tasks.last(), a) {
        (Job::AwaitJit(c), Answer::Compiled { value, draws }) => {
            lemma_uncompiled(State { draws, ..t }, ts, vs, c);
            assert((State { draws, ..tt }) == atop(State { draws, ..t }, ts, vs));
        },
        (Job::AwaitMemo(c), Answer::Memo { hit, token }) => {
            lemma_enter(t, ts, vs, c, token);
        },
        (Job::AwaitBuiltin { name, .. }, Answer::Built { value, lines, draws }) => {
            let n = crate::host::reads_after(name, t.impure_reads);
            assert((State { log: tt.log + lines, draws, impure_reads: n, ..tt }) == atop(
                State { log: t.log + lines, draws, impure_reads: n, ..t },
                ts,
                vs,
            ));
        },
        (Job::AwaitEcho { args, body, scope, .. }, Answer::Texts(xs)) => {
            let l = crate::message::Line::Echo(
                crate::console::echo_text(args, xs, crate::console::shown_count(args, xs)),
            );
            assert(tt.say(l) == atop(t.say(l), ts, vs));
        },
        _ => {},
    }
}

}

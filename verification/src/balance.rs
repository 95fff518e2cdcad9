//! The stack discipline: no step takes a value that is not there, a run ends with exactly its
//! value, and the calls under way are those that still have to return.

use vstd::prelude::*;

use crate::ast::{arg_exprs, Arg, Expr, Parameter};
use crate::calls::{matched, Matched};
use crate::host::{resumed, Answer};
use crate::machine::{
    call_names, call_provided, call_step, charged, costs, dispatch, each_from, elem_step, enter,
    evals, extra_exprs, node_step, perform, perform_binding, perform_call, perform_console,
    perform_cycle, perform_element, perform_plain, sources, step, waits, Entering, Job, Sig, State,
    MAX_CALL_DEPTH,
};
use crate::num::FloatOp;
use crate::run::{run_from, started};
use crate::scope::Scope;
use crate::value::Val;

verus! {

/// How many values a task finds on the stack and uses up; every task gives one in the end.
pub open spec fn takes(j: Job) -> nat {
    match j {
        Job::Eval(_, _) => 0,
        Job::Const(_) => 0,
        Job::Binary(_) => 2,
        Job::VectorSplice(es) => es.len(),
        Job::Index => 2,
        Job::Range { stepped } => if stepped {
            3
        } else {
            2
        },
        Job::Apply { names, .. } => names.len(),
        Job::Builtin { args, .. } => args.len(),
        Job::Native { nargs, .. } => nargs,
        Job::EchoEmit { args, .. } => args.len(),
        Job::AssertCheck { cond, .. } => if cond {
            1
        } else {
            0
        },
        Job::LcElem(_, _) => 0,
        Job::LcForBindings { .. } => 0,
        Job::LcForNext { pending, .. } => if pending {
            1
        } else {
            0
        },
        Job::LcForCStep(_) => 0,
        Job::PushUndef => 0,
        Job::AwaitBuiltin { .. } => 0,
        Job::AwaitNative { .. } => 0,
        Job::AwaitEcho { .. } => 0,
        Job::AwaitAssert { .. } => 0,
        Job::AwaitJit(_) => 0,
        Job::AwaitMemo(_) => 0,
        _ => 1,
    }
}

/// How many values are left once all tasks are done, starting with `n`; nothing where a task
/// would find too few.
pub open spec fn height(ts: Seq<Job>, n: nat) -> Option<nat>
    decreases ts.len(),
{
    if ts.len() == 0 {
        Some(n)
    } else if takes(ts.last()) <= n {
        height(ts.drop_last(), (n - takes(ts.last()) + 1) as nat)
    } else {
        None
    }
}

/// How many values a state leads to.
pub open spec fn leads_to(s: State) -> Option<nat> {
    height(s.tasks, s.values.len())
}

/// How many calls still have to return.
pub open spec fn open_calls(ts: Seq<Job>) -> nat
    decreases ts.len(),
{
    if ts.len() == 0 {
        0
    } else if ts.last() is CallReturn {
        open_calls(ts.drop_last()) + 1
    } else {
        open_calls(ts.drop_last())
    }
}

broadcast proof fn lemma_push(ts: Seq<Job>, j: Job, n: nat)
    ensures
        #[trigger] height(ts.push(j), n) == if takes(j) <= n {
            height(ts, (n - takes(j) + 1) as nat)
        } else {
            None
        },
{
    assert(ts.push(j).drop_last() =~= ts);
}

broadcast proof fn lemma_push_returns(ts: Seq<Job>, j: Job)
    ensures
        #[trigger] open_calls(ts.push(j)) == open_calls(ts) + if j is CallReturn {
            1nat
        } else {
            0nat
        },
{
    assert(ts.push(j).drop_last() =~= ts);
}

/// A row of tasks that take nothing and are no returns.
spec fn fresh(js: Seq<Job>) -> bool {
    forall|i: int| 0 <= i < js.len() ==> takes(#[trigger] js[i]) == 0 && !(js[i] is CallReturn)
}

proof fn lemma_row(ts: Seq<Job>, js: Seq<Job>, n: nat)
    requires
        fresh(js),
    ensures
        height(ts + js, n) == height(ts, n + js.len()),
        open_calls(ts + js) == open_calls(ts),
    decreases js.len(),
{
    if js.len() == 0 {
        assert(ts + js =~= ts);
    } else {
        let k = js.drop_last();
        assert(ts + js =~= (ts + k).push(js.last()));
        lemma_push(ts + k, js.last(), n);
        lemma_push_returns(ts + k, js.last());
        lemma_row(ts, k, (n + 1) as nat);
    }
}

proof fn lemma_evals_fresh(es: Seq<Expr>, scope: Scope)
    ensures
        fresh(evals(es, scope)),
{
}

proof fn lemma_sources_fresh(
    params: Seq<Parameter>,
    m: Matched,
    this: Option<Val>,
    caller: Scope,
    base: Scope,
)
    ensures
        fresh(sources(params, m, this, caller, base)),
{
}

/// The state after a task: it leads where the state before the task led, and the calls under way
/// match the returns.
pub open spec fn in_step(s: State, t: State, taken: nat) -> bool {
    &&& leads_to(t) == height(s.tasks, (s.values.len() - taken + 1) as nat)
    &&& t.live_calls - open_calls(t.tasks) == s.live_calls - open_calls(s.tasks)
}

proof fn lemma_call_step(
    s: State,
    params: Seq<Parameter>,
    body: Expr,
    args: Seq<Arg>,
    caller: Scope,
    base: Scope,
    name: Option<Seq<char>>,
    this: Option<Val>,
)
    ensures
        in_step(s, call_step(s, params, body, args, caller, base, name, this), 0),
{
    let m = matched(params, args, args.len());
    let a = s.task(
        Job::Apply {
            names: call_names(params, m),
            provided: call_provided(params, m, this),
            body,
            base,
            caller,
            name: if m.extra.len() == 0 {
                name
            } else {
                None
            },
        },
    );
    let xs = evals(extra_exprs(m), caller);
    let ps = sources(params, m, this, caller, base);
    lemma_evals_fresh(extra_exprs(m), caller);
    lemma_sources_fresh(params, m, this, caller, base);
    lemma_row(a.tasks + xs, ps, s.values.len());
    lemma_row(a.tasks, xs, s.values.len() + ps.len());
    lemma_push(s.tasks, a.tasks.last(), s.values.len() + ps.len() + xs.len());
    lemma_push_returns(s.tasks, a.tasks.last());
    assert(call_names(params, m).len() == params.len() + m.extra.len());
}

proof fn lemma_dispatch(s: State, callee: Expr, args: Seq<Arg>, scope: Scope)
    ensures
        in_step(s, dispatch(s, callee, args, scope), 0),
{
    broadcast use lemma_push, lemma_push_returns;

    match callee.kind {
        crate::ast::ExprKind::Ident(n) => {
            let name = n@;
            match crate::machine::def_from(s.setup.functions, name, 0) {
                Some(def) => {
                    let base = s.setup.globals[def.home as int];
                    lemma_call_step(
                        s,
                        def.params,
                        def.body,
                        args,
                        scope,
                        base,
                        Some(def.name),
                        None,
                    );
                    let m = matched(def.params, args, args.len());
                    let k = if args.len() < def.params.len() {
                        args.len()
                    } else {
                        def.params.len()
                    };
                    let es = arg_exprs(args).take(k as int);
                    lemma_evals_fresh(es, scope);
                    lemma_row(
                        s.tasks.push(Job::Native { name: def.name, nargs: k }),
                        evals(es, scope),
                        s.values.len(),
                    );
                    lemma_sources_fresh(def.params, m, None, scope, base);
                    lemma_row(
                        s.tasks.push(
                            Job::Native { name: def.name, nargs: def.params.len() },
                        ),
                        sources(def.params, m, None, scope, base),
                        s.values.len(),
                    );
                },
                None => {},
            }
            lemma_evals_fresh(arg_exprs(args), scope);
            lemma_row(
                s.tasks.push(Job::Builtin { name, args }),
                evals(arg_exprs(args), scope),
                s.values.len(),
            );
        },
        _ => {},
    }
}

proof fn lemma_node(s: State, e: Expr, scope: Scope)
    ensures
        in_step(s, node_step(s, e, scope), 0),
{
    broadcast use lemma_push, lemma_push_returns;

    match e.kind {
        crate::ast::ExprKind::Call { callee, args } => {
            lemma_dispatch(s, *callee, args@, scope);
        },
        crate::ast::ExprKind::Vector(es) => {
            lemma_evals_fresh(es@, scope);
            lemma_row(s.tasks.push(Job::VectorSplice(es@)), evals(es@, scope), s.values.len());
        },
        crate::ast::ExprKind::Echo { args, body } => {
            lemma_evals_fresh(arg_exprs(args@), scope);
            lemma_row(
                s.tasks.push(
                    Job::EchoEmit {
                        args: args@,
                        body: match body {
                            Some(b) => Some(*b),
                            None => None,
                        },
                        scope,
                    },
                ),
                evals(arg_exprs(args@), scope),
                s.values.len(),
            );
        },
        _ => {},
    }
}

proof fn lemma_elem(s: State, e: Expr, scope: Scope)
    ensures
        in_step(s, elem_step(s, e, scope), 0),
{
    broadcast use lemma_push, lemma_push_returns;

}

proof fn lemma_plain(s: State, j: Job, f: spec_fn(FloatOp, u64, u64) -> u64)
    requires
        takes(j) <= s.values.len(),
    ensures
        !(perform_plain(s, j, f).1 is Asking) ==> in_step(s, perform_plain(s, j, f).0, takes(j)),
{
    broadcast use lemma_push, lemma_push_returns;

    reveal(perform_plain);
}

proof fn lemma_enter(s: State, c: Entering, token: Option<u64>)
    requires
        s.live_calls < u32::MAX,
    ensures
        !(enter(s, c, token).1 is Failed) ==> in_step(s, enter(s, c, token).0, 0),
{
    broadcast use lemma_push, lemma_push_returns;

}

proof fn lemma_call(s: State, j: Job, f: spec_fn(FloatOp, u64, u64) -> u64)
    requires
        takes(j) <= s.values.len(),
        j is Apply || j is CallValue || j is Builtin || j is Native || j is CacheStore,
    ensures
        !(perform_call(s, j, f).1 is Failed) ==> in_step(s, perform_call(s, j, f).0, takes(j)),
{
    broadcast use lemma_push, lemma_push_returns;

    reveal(perform_call);
    match j {
        Job::Apply { names, provided, body, base, caller, name } => {
            let c = Entering {
                names,
                provided,
                vals: s.top_n(names.len()),
                body,
                base,
                caller,
                name,
            };
            if s.live_calls < MAX_CALL_DEPTH {
                lemma_enter(s.popped_n(names.len()), c, None);
            }
        },
        Job::CallValue { args, caller } => {
            match s.top() {
                Val::Function { closure_id, env, self_name, repr, group, bound_this } => {
                    if closure_id < s.closures.len() && env.at < s.store.len() {
                        let (st, base) = crate::machine::callee_base(
                            s.store,
                            s.top(),
                            env,
                            self_name,
                            group,
                        );
                        let code = s.closures[closure_id as int];
                        lemma_call_step(
                            State { store: st, ..s.popped() },
                            code.params,
                            code.body,
                            args,
                            caller,
                            base,
                            None,
                            match bound_this {
                                Some(ms) => Some(Val::Object(ms)),
                                None => None,
                            },
                        );
                    }
                },
                _ => {},
            }
        },
        _ => {},
    }
}

proof fn lemma_console(s: State, j: Job, f: spec_fn(FloatOp, u64, u64) -> u64)
    requires
        takes(j) <= s.values.len(),
        j is EchoEmit || j is AssertCheck || j is AssertVerdict,
    ensures
        !(perform_console(s, j, f).1 is Failed) ==> in_step(
            s,
            perform_console(s, j, f).0,
            takes(j),
        ),
{
    broadcast use lemma_push, lemma_push_returns;

    reveal(perform_console);
}

proof fn lemma_each(
    s: State,
    cs: Seq<Val>,
    i: int,
    out: Seq<Val>,
    f: spec_fn(FloatOp, u64, u64) -> u64,
)
    ensures
        each_from(s, cs, i, out, f).0.tasks == s.tasks,
        each_from(s, cs, i, out, f).0.values == s.values,
        each_from(s, cs, i, out, f).0.live_calls == s.live_calls,
    decreases cs.len() - i,
{
    if i < cs.len() {
        let (t, fault) = charged(s, crate::iterate::item_count(cs[i], f) as u64);
        if fault is None {
            lemma_each(
                t.warned(crate::iterate::items_warning(cs[i], f)),
                cs,
                i + 1,
                out + crate::iterate::items_of(cs[i], f),
                f,
            );
        }
    }
}

proof fn lemma_element(s: State, j: Job, f: spec_fn(FloatOp, u64, u64) -> u64)
    requires
        takes(j) <= s.values.len(),
        j is LcIfBranch || j is LcEachSplice || j is LcForBindings || j is LcForStart
            || j is LcForNext,
    ensures
        !(perform_element(s, j, f).1 is Failed) ==> in_step(
            s,
            perform_element(s, j, f).0,
            takes(j),
        ),
{
    broadcast use lemma_push, lemma_push_returns;

    reveal(perform_element);
    match j {
        Job::LcEachSplice { splice_inner } => {
            let inner = s.top();
            let t = if splice_inner {
                s.popped().warned(crate::iterate::items_warning(inner, f))
            } else {
                s.popped()
            };
            let cs = if splice_inner {
                crate::iterate::items_of(inner, f)
            } else {
                seq![inner]
            };
            lemma_each(t, cs, 0, Seq::empty(), f);
        },
        _ => {},
    }
}

proof fn lemma_cycle(s: State, j: Job, f: spec_fn(FloatOp, u64, u64) -> u64)
    requires
        takes(j) <= s.values.len(),
        j is CForInit || j is LcForCStep || j is CForTest || j is LcForCUpdate || j is CForSet,
    ensures
        !(perform_cycle(s, j, f).1 is Failed) ==> in_step(s, perform_cycle(s, j, f).0, takes(j)),
{
    broadcast use lemma_push, lemma_push_returns;

    reveal(perform_cycle);
}

proof fn lemma_binding(s: State, j: Job, f: spec_fn(FloatOp, u64, u64) -> u64)
    requires
        takes(j) <= s.values.len(),
        j is LetStep || j is LcLetStep,
    ensures
        in_step(s, perform_binding(s, j, f).0, takes(j)),
{
    broadcast use lemma_push, lemma_push_returns;

    reveal(perform_binding);
}

/// The calls under way are those that still have to return.
pub open spec fn calls_match(s: State) -> bool {
    s.live_calls == open_calls(s.tasks)
}

proof fn lemma_last(ts: Seq<Job>)
    requires
        ts.len() > 0,
    ensures
        ts == ts.drop_last().push(ts.last()),
{
    assert(ts =~= ts.drop_last().push(ts.last()));
}

proof fn lemma_perform(s: State, j: Job, f: spec_fn(FloatOp, u64, u64) -> u64)
    requires
        takes(j) <= s.values.len(),
        !(j is CallReturn),
    ensures
        !(perform(s, j, f).1 is Failed) ==> in_step(s, perform(s, j, f).0, takes(j)),
{
    broadcast use lemma_push, lemma_push_returns;

    match j {
        Job::Eval(e, scope) => {
            lemma_node(s, e, scope);
        },
        Job::LcElem(e, scope) => {
            lemma_elem(s, e, scope);
        },
        Job::Apply { .. } => {
            lemma_call(s, j, f);
        },
        Job::CallValue { .. } => {
            lemma_call(s, j, f);
        },
        Job::Builtin { .. } => {
            lemma_call(s, j, f);
        },
        Job::Native { .. } => {
            lemma_call(s, j, f);
        },
        Job::CacheStore { .. } => {
            lemma_call(s, j, f);
        },
        Job::EchoEmit { .. } => {
            lemma_console(s, j, f);
        },
        Job::AssertCheck { .. } => {
            lemma_console(s, j, f);
        },
        Job::AssertVerdict { .. } => {
            lemma_console(s, j, f);
        },
        Job::LcIfBranch { .. } => {
            lemma_element(s, j, f);
        },
        Job::LcEachSplice { .. } => {
            lemma_element(s, j, f);
        },
        Job::LcForBindings { .. } => {
            lemma_element(s, j, f);
        },
        Job::LcForStart { .. } => {
            lemma_element(s, j, f);
        },
        Job::LcForNext { .. } => {
            lemma_element(s, j, f);
        },
        Job::CForInit { .. } => {
            lemma_cycle(s, j, f);
        },
        Job::LcForCStep(_) => {
            lemma_cycle(s, j, f);
        },
        Job::CForTest { .. } => {
            lemma_cycle(s, j, f);
        },
        Job::LcForCUpdate { .. } => {
            lemma_cycle(s, j, f);
        },
        Job::CForSet { .. } => {
            lemma_cycle(s, j, f);
        },
        Job::LetStep { .. } => {
            lemma_binding(s, j, f);
        },
        Job::LcLetStep { .. } => {
            lemma_binding(s, j, f);
        },
        _ => {
            if !waits(j) {
                lemma_plain(s, j, f);
                lemma_plain_runs(s, j, f);
            }
        },
    }
}

proof fn lemma_plain_runs(s: State, j: Job, f: spec_fn(FloatOp, u64, u64) -> u64)
    requires
        j is Const || j is Binary || j is Unary || j is VectorSplice || j is Index || j is Member
            || j is Range || j is Ternary || j is WrapContribution || j is PushUndef
            || j is ShortCircuit,
    ensures
        perform_plain(s, j, f).1 is Running,
{
    reveal(perform_plain);
}

/// A step that does not fail takes no value that is not there and leads to as many values as the
/// state before it; and the calls under way stay those that still have to return.
pub proof fn law_step_discipline(s: State, f: spec_fn(FloatOp, u64, u64) -> u64)
    requires
        leads_to(s) is Some,
        s.tasks.len() > 0,
    ensures
        takes(s.tasks.last()) <= s.values.len(),
        !(step(s, f).1 is Failed) ==> leads_to(step(s, f).0) == leads_to(s),
        !(step(s, f).1 is Failed) && calls_match(s) ==> calls_match(step(s, f).0),
        step(s, f).1 !is Done,
{
    broadcast use lemma_push, lemma_push_returns;

    reveal(step);
    lemma_last(s.tasks);
    let j = s.tasks.last();
    let t = State { tasks: s.tasks.drop_last(), ..s };
    let u = if costs(j) {
        charged(t, 1).0
    } else {
        t
    };
    if j is CallReturn {
        reveal(perform_call);
    } else {
        lemma_perform(u, j, f);
    }
    lemma_never_done(u, j, f);
}

proof fn lemma_never_done(s: State, j: Job, f: spec_fn(FloatOp, u64, u64) -> u64)
    ensures
        perform(s, j, f).1 !is Done,
{
    reveal(perform_plain);
    reveal(perform_call);
    reveal(perform_console);
    reveal(perform_element);
    reveal(perform_cycle);
    reveal(perform_binding);
}

/// Going on with an answer keeps the discipline too.
pub proof fn law_answer_discipline(s: State, a: Answer)
    requires
        leads_to(s) is Some,
    ensures
        match resumed(s, a) {
            Some((_, Sig::Failed(_))) => true,
            Some((t, sig)) => {
                &&& leads_to(t) == leads_to(s)
                &&& calls_match(s) ==> calls_match(t)
                &&& sig !is Done
            },
            None => true,
        },
{
    broadcast use lemma_push, lemma_push_returns;

    reveal(resumed);
    if s.tasks.len() > 0 {
        lemma_last(s.tasks);
        let t = State { tasks: s.tasks.drop_last(), ..s };
        match (s.tasks.last(), a) {
            (Job::AwaitJit(c), Answer::Compiled { value, draws }) => {
                if s.live_calls < MAX_CALL_DEPTH {
                    lemma_enter(State { draws, ..t }, c, None);
                }
            },
            (Job::AwaitMemo(c), Answer::Memo { hit, token }) => {
                if s.live_calls < MAX_CALL_DEPTH {
                    lemma_enter(t, c, token);
                }
            },
            _ => {},
        }
    }
}

/// A run that leads to one value ends with exactly that value: nothing else is left on the value
/// stack, no task is left, and no call is under way any more.
pub proof fn law_run_ends_with_its_value(
    s: State,
    f: spec_fn(FloatOp, u64, u64) -> u64,
    h: spec_fn(Job, u64, Seq<Seq<char>>) -> Answer,
    n: nat,
)
    requires
        leads_to(s) == Some(1nat),
        calls_match(s),
        run_from(s, f, h, n).1 is Ok,
    ensures
        run_from(s, f, h, n).0.values.len() == 0,
        run_from(s, f, h, n).0.tasks.len() == 0,
        run_from(s, f, h, n).0.live_calls == 0,
    decreases n,
{
    let (t, sig) = step(s, f);
    if s.tasks.len() == 0 {
        reveal(step);
    } else {
        law_step_discipline(s, f);
        match sig {
            Sig::Running => {
                law_run_ends_with_its_value(t, f, h, (n - 1) as nat);
            },
            Sig::Remember { .. } => {
                law_run_ends_with_its_value(t, f, h, (n - 1) as nat);
            },
            Sig::Asking => {
                let a = h(t.tasks.last(), t.draws, t.modules);
                law_answer_discipline(t, a);
                match resumed(t, a) {
                    None => {},
                    Some((u, Sig::Failed(e))) => {},
                    Some((u, _)) => {
                        law_run_ends_with_its_value(u, f, h, (n - 1) as nat);
                    },
                }
            },
            _ => {},
        }
    }
}

/// The evaluation of an expression starts a run that leads to one value.
pub proof fn law_evaluation_leads_to_one_value(s: State, e: Expr, scope: Scope)
    ensures
        leads_to(started(s, e, scope)) == Some(1nat),
        s.live_calls == 0 ==> calls_match(started(s, e, scope)),
{
    let t = started(s, e, scope);
    assert(t.tasks =~= Seq::<Job>::empty().push(Job::Eval(e, scope)));
    lemma_push(Seq::empty(), Job::Eval(e, scope), 0);
    lemma_push_returns(Seq::empty(), Job::Eval(e, scope));
}

/// Taking `n` values off the stack never takes more than there are.
pub proof fn law_pop_never_underflows(s: State, n: nat)
    ensures
        s.rest_len(n) <= s.values.len(),
        s.top_n(n).len() + s.popped_n(n).values.len() == s.values.len(),
        s.top_n(n).len() <= n,
{
}

}

//! The budget: it only ever stops a run, and what it has not stopped is as without it.

use vstd::prelude::*;

use crate::ast::{Arg, Expr};
use crate::discipline::{law_answer_keeps_bindings, law_step_keeps_bindings, spent};
use crate::host::{resumed, Answer};
use crate::machine::{
    charged, costs, dispatch, each_from, elem_step, enter, node_step, perform, perform_binding,
    perform_call, perform_console, perform_cycle, perform_element, perform_plain, step, Entering,
    Job, Setup, Sig, State,
};
use crate::num::FloatOp;
use crate::run::run_from;
use crate::scope::Scope;
use crate::value::Val;

verus! {

/// The same state under another budget.
pub open spec fn under(s: State, budget: Option<u64>, steps: u64) -> State {
    State { steps, setup: Setup { budget, ..s.setup }, ..s }
}

/// Two states that differ at most in the budget and in what of it is used.
pub open spec fn alike(a: State, b: State) -> bool {
    b == under(a, b.setup.budget, b.steps)
}

/// Two steps that are alike, or the second of which was stopped by the budget.
pub open spec fn steps_alike(x: (State, Sig), y: (State, Sig)) -> bool {
    ||| y.1 is Failed && spent(y.0)
    ||| x.1 == y.1 && alike(x.0, y.0)
}

proof fn lemma_charge(a: State, b: State, n: u64)
    requires
        alike(a, b),
        a.setup.budget is None,
    ensures
        charged(a, n).1 is None,
        alike(charged(a, n).0, charged(b, n).0),
        charged(b, n).1 is Some ==> spent(charged(b, n).0),
        charged(a, n).0 == a,
{
}

proof fn lemma_node(a: State, b: State, e: Expr, scope: Scope)
    requires
        alike(a, b),
    ensures
        alike(node_step(a, e, scope), node_step(b, e, scope)),
{
    match e.kind {
        crate::ast::ExprKind::Call { callee, args } => {
            lemma_dispatch(a, b, *callee, args@, scope);
        },
        _ => {},
    }
}

proof fn lemma_dispatch(a: State, b: State, callee: Expr, args: Seq<Arg>, scope: Scope)
    requires
        alike(a, b),
    ensures
        alike(dispatch(a, callee, args, scope), dispatch(b, callee, args, scope)),
{
}

proof fn lemma_elem(a: State, b: State, e: Expr, scope: Scope)
    requires
        alike(a, b),
    ensures
        alike(elem_step(a, e, scope), elem_step(b, e, scope)),
{
}

proof fn lemma_plain(a: State, b: State, j: Job, f: spec_fn(FloatOp, u64, u64) -> u64)
    requires
        alike(a, b),
    ensures
        perform_plain(a, j, f).1 == perform_plain(b, j, f).1,
        alike(perform_plain(a, j, f).0, perform_plain(b, j, f).0),
{
    reveal(perform_plain);
}

proof fn lemma_enter(a: State, b: State, c: Entering, token: Option<u64>)
    requires
        alike(a, b),
    ensures
        enter(a, c, token).1 == enter(b, c, token).1,
        alike(enter(a, c, token).0, enter(b, c, token).0),
{
}

proof fn lemma_call(a: State, b: State, j: Job, f: spec_fn(FloatOp, u64, u64) -> u64)
    requires
        alike(a, b),
    ensures
        perform_call(a, j, f).1 == perform_call(b, j, f).1,
        alike(perform_call(a, j, f).0, perform_call(b, j, f).0),
{
    reveal(perform_call);
    match j {
        Job::Apply { names, provided, body, base, caller, name } => {
            lemma_enter(
                a.popped_n(names.len()),
                b.popped_n(names.len()),
                Entering { names, provided, vals: a.top_n(names.len()), body, base, caller, name },
                None,
            );
        },
        _ => {},
    }
}

proof fn lemma_console(a: State, b: State, j: Job, f: spec_fn(FloatOp, u64, u64) -> u64)
    requires
        alike(a, b),
    ensures
        perform_console(a, j, f).1 == perform_console(b, j, f).1,
        alike(perform_console(a, j, f).0, perform_console(b, j, f).0),
{
    reveal(perform_console);
}

proof fn lemma_each(
    a: State,
    b: State,
    cs: Seq<Val>,
    i: int,
    out: Seq<Val>,
    f: spec_fn(FloatOp, u64, u64) -> u64,
)
    requires
        alike(a, b),
        a.setup.budget is None,
    ensures
        ({
            let x = each_from(a, cs, i, out, f);
            let y = each_from(b, cs, i, out, f);
            &&& x.1 is None
            &&& y.1 is Some ==> spent(y.0)
            &&& y.1 is None ==> alike(x.0, y.0) && x.2 == y.2
        }),
    decreases cs.len() - i,
{
    if i < cs.len() {
        let n = crate::iterate::item_count(cs[i], f) as u64;
        lemma_charge(a, b, n);
        let w = crate::iterate::items_warning(cs[i], f);
        if charged(b, n).1 is None {
            lemma_each(
                charged(a, n).0.warned(w),
                charged(b, n).0.warned(w),
                cs,
                i + 1,
                out + crate::iterate::items_of(cs[i], f),
                f,
            );
        } else {
            let a2 = charged(a, n).0.warned(w);
            lemma_each(a2, a2, cs, i + 1, out + crate::iterate::items_of(cs[i], f), f);
        }
    }
}

proof fn lemma_element(a: State, b: State, j: Job, f: spec_fn(FloatOp, u64, u64) -> u64)
    requires
        alike(a, b),
        a.setup.budget is None,
    ensures
        steps_alike(perform_element(a, j, f), perform_element(b, j, f)),
{
    reveal(perform_element);
    match j {
        Job::LcEachSplice { splice_inner } => {
            let inner = a.top();
            let w = crate::iterate::items_warning(inner, f);
            if splice_inner {
                lemma_each(
                    a.popped().warned(w),
                    b.popped().warned(w),
                    crate::iterate::items_of(inner, f),
                    0,
                    Seq::empty(),
                    f,
                );
            } else {
                lemma_each(a.popped(), b.popped(), seq![inner], 0, Seq::empty(), f);
            }
        },
        Job::LcForStart { .. } => {
            lemma_charge(
                a.popped(),
                b.popped(),
                crate::iterate::item_count(a.top(), f) as u64,
            );
        },
        _ => {},
    }
}

proof fn lemma_cycle(a: State, b: State, j: Job, f: spec_fn(FloatOp, u64, u64) -> u64)
    requires
        alike(a, b),
    ensures
        perform_cycle(a, j, f).1 == perform_cycle(b, j, f).1,
        alike(perform_cycle(a, j, f).0, perform_cycle(b, j, f).0),
{
    reveal(perform_cycle);
}

proof fn lemma_binding(a: State, b: State, j: Job, f: spec_fn(FloatOp, u64, u64) -> u64)
    requires
        alike(a, b),
    ensures
        perform_binding(a, j, f).1 == perform_binding(b, j, f).1,
        alike(perform_binding(a, j, f).0, perform_binding(b, j, f).0),
{
    reveal(perform_binding);
}

proof fn lemma_perform(a: State, b: State, j: Job, f: spec_fn(FloatOp, u64, u64) -> u64)
    requires
        alike(a, b),
        a.setup.budget is None,
    ensures
        steps_alike(perform(a, j, f), perform(b, j, f)),
{
    lemma_plain(a, b, j, f);
    lemma_call(a, b, j, f);
    lemma_console(a, b, j, f);
    lemma_element(a, b, j, f);
    lemma_cycle(a, b, j, f);
    lemma_binding(a, b, j, f);
    match j {
        Job::Eval(e, scope) => {
            lemma_node(a, b, e, scope);
        },
        Job::LcElem(e, scope) => {
            lemma_elem(a, b, e, scope);
        },
        _ => {},
    }
}

/// A step under a budget is the step without one, unless the budget stops it.
pub proof fn law_budget_only_stops_a_step(a: State, b: State, f: spec_fn(FloatOp, u64, u64) -> u64)
    requires
        alike(a, b),
        a.setup.budget is None,
    ensures
        steps_alike(step(a, f), step(b, f)),
{
    reveal(step);
    if a.tasks.len() > 0 {
        let j = a.tasks.last();
        let ta = State { tasks: a.tasks.drop_last(), ..a };
        let tb = State { tasks: b.tasks.drop_last(), ..b };
        lemma_charge(ta, tb, 1);
        if costs(j) {
            lemma_perform(charged(ta, 1).0, charged(tb, 1).0, j, f);
        } else {
            lemma_perform(ta, tb, j, f);
        }
    }
}

/// Going on with an answer does not look at the budget.
pub proof fn law_answers_cost_nothing(a: State, b: State, x: Answer)
    requires
        alike(a, b),
    ensures
        match (resumed(a, x), resumed(b, x)) {
            (None, None) => true,
            (Some(p), Some(q)) => p.1 == q.1 && alike(p.0, q.0),
            _ => false,
        },
{
    reveal(resumed);
    if a.tasks.len() > 0 {
        let ta = State { tasks: a.tasks.drop_last(), ..a };
        let tb = State { tasks: b.tasks.drop_last(), ..b };
        match (a.tasks.last(), x) {
            (Job::AwaitJit(c), Answer::Compiled { value, draws }) => {
                lemma_enter(State { draws, ..ta }, State { draws, ..tb }, c, None);
            },
            (Job::AwaitMemo(c), Answer::Memo { hit, token }) => {
                lemma_enter(ta, tb, c, token);
            },
            _ => {},
        }
    }
}

/// A run that its budget has not stopped gives what the run without a budget gives, and leaves
/// the same state but for the budget.
pub proof fn law_within_the_budget_nothing_changes(
    a: State,
    b: State,
    f: spec_fn(FloatOp, u64, u64) -> u64,
    h: spec_fn(Job, u64, Seq<Seq<char>>) -> Answer,
    n: nat,
)
    requires
        alike(a, b),
        a.setup.budget is None,
        !(run_from(b, f, h, n).1 is Err && spent(run_from(b, f, h, n).0)),
    ensures
        run_from(b, f, h, n).1 == run_from(a, f, h, n).1,
        alike(run_from(a, f, h, n).0, run_from(b, f, h, n).0),
    decreases n,
{
    if n > 0 {
        law_budget_only_stops_a_step(a, b, f);
        law_step_keeps_bindings(a, f);
        let ta = step(a, f).0;
        let tb = step(b, f).0;
        match step(b, f).1 {
            Sig::Running => {
                law_within_the_budget_nothing_changes(ta, tb, f, h, (n - 1) as nat);
            },
            Sig::Remember { .. } => {
                law_within_the_budget_nothing_changes(ta, tb, f, h, (n - 1) as nat);
            },
            Sig::Asking => {
                let x = h(ta.tasks.last(), ta.draws, ta.modules);
                law_answers_cost_nothing(ta, tb, x);
                law_answer_keeps_bindings(ta, x);
                match (resumed(ta, x), resumed(tb, x)) {
                    (Some(p), Some(q)) => {
                        if !(p.1 is Failed) {
                            law_within_the_budget_nothing_changes(p.0, q.0, f, h, (n - 1) as nat);
                        }
                    },
                    _ => {},
                }
            },
            _ => {},
        }
    }
}

}

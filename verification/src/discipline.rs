//! What holds of every run.

use vstd::prelude::*;

use crate::ast::Expr;
use crate::host::{resumed, Answer};
use crate::machine::{
    bind_group, bind_vars, bind_where, call_scope, call_width, callee_base, charged, costs,
    each_from, elem_step, enter, node_step, perform, perform_binding, perform_call, perform_console,
    perform_cycle, perform_element, perform_plain, step, Entering, Job, Sig, State,
};
use crate::num::FloatOp;
use crate::run::run_from;
use crate::scope::{bound, grows, newest, Cell, Scope};
use crate::value::{Sibling, Val};

verus! {

/// The budget of a state is spent.
pub open spec fn spent(s: State) -> bool {
    s.setup.budget matches Some(b) && s.steps > b
}

/// Growing twice is growing.
pub proof fn lemma_grows_trans(a: Seq<Cell>, b: Seq<Cell>, c: Seq<Cell>)
    requires
        grows(a, b),
        grows(b, c),
    ensures
        grows(a, c),
{
    assert forall|i: int| 0 <= i < a.len() implies #[trigger] c[i] == a[i] by {
        assert(b[i] == a[i]);
    }
}

proof fn lemma_bind_where_grows(st: Seq<Cell>, scope: Scope, c: Entering, want: bool, n: nat)
    ensures
        grows(st, bind_where(st, scope, c, want, n).0),
    decreases n,
{
    if n > 0 {
        lemma_bind_where_grows(st, scope, c, want, (n - 1) as nat);
        let (t, u) = bind_where(st, scope, c, want, (n - 1) as nat);
        lemma_grows_trans(st, t, bound(t, u, c.names[n - 1], c.vals[n - 1]));
    }
}

proof fn lemma_bind_group_grows(st: Seq<Cell>, scope: Scope, env: Scope, g: Seq<Sibling>, n: nat)
    ensures
        grows(st, bind_group(st, scope, env, g, n).0),
    decreases n,
{
    if n > 0 {
        lemma_bind_group_grows(st, scope, env, g, (n - 1) as nat);
        let t = bind_group(st, scope, env, g, (n - 1) as nat).0;
        lemma_grows_trans(st, t, bind_group(st, scope, env, g, n).0);
    }
}

proof fn lemma_bind_vars_grows(st: Seq<Cell>, scope: Scope, vars: Seq<(Seq<char>, Val)>, n: nat)
    ensures
        grows(st, bind_vars(st, scope, vars, n).0),
    decreases n,
{
    if n > 0 {
        lemma_bind_vars_grows(st, scope, vars, (n - 1) as nat);
        let t = bind_vars(st, scope, vars, (n - 1) as nat).0;
        lemma_grows_trans(st, t, bind_vars(st, scope, vars, n).0);
    }
}

/// Entering a call only adds to the store.
pub proof fn lemma_call_scope_grows(st: Seq<Cell>, c: Entering)
    ensures
        grows(st, call_scope(st, c).0),
{
    let t = st.push(crate::scope::call_cell(st, c.base, c.caller));
    let (u, v) = bind_where(t, newest(t), c, false, call_width(c));
    lemma_bind_where_grows(t, newest(t), c, false, call_width(c));
    lemma_bind_where_grows(u, v, c, true, call_width(c));
    lemma_grows_trans(st, t, u);
    lemma_grows_trans(st, u, call_scope(st, c).0);
}

proof fn lemma_callee_base_grows(
    st: Seq<Cell>,
    callee: Val,
    env: Scope,
    self_name: Option<Seq<char>>,
    group: Option<Seq<Sibling>>,
)
    ensures
        grows(st, callee_base(st, callee, env, self_name, group).0),
{
    if !(self_name is None && (group is None || group->Some_0.len() == 0)) {
        let t = st.push(crate::scope::child_cell(st, env));
        let (u, v) = match group {
            Some(g) => bind_group(t, newest(t), env, g, g.len()),
            None => (t, newest(t)),
        };
        match group {
            Some(g) => {
                lemma_bind_group_grows(t, newest(t), env, g, g.len());
            },
            None => {},
        }
        lemma_grows_trans(st, t, u);
        match self_name {
            Some(n) => {
                lemma_grows_trans(st, u, bound(u, v, n, callee));
            },
            None => {},
        }
    }
}

proof fn lemma_each_keeps_store(
    s: State,
    cs: Seq<Val>,
    i: int,
    out: Seq<Val>,
    f: spec_fn(FloatOp, u64, u64) -> u64,
)
    ensures
        each_from(s, cs, i, out, f).0.store == s.store,
        each_from(s, cs, i, out, f).0.setup == s.setup,
        each_from(s, cs, i, out, f).0.modules == s.modules,
        each_from(s, cs, i, out, f).1 is None && !spent(s) ==> !spent(
            each_from(s, cs, i, out, f).0,
        ),
    decreases cs.len() - i,
{
    if i < cs.len() {
        let (t, fault) = charged(s, crate::iterate::item_count(cs[i], f) as u64);
        if fault is None {
            lemma_each_keeps_store(
                t.warned(crate::iterate::items_warning(cs[i], f)),
                cs,
                i + 1,
                out + crate::iterate::items_of(cs[i], f),
                f,
            );
        }
    }
}

proof fn lemma_enter_grows(s: State, c: Entering, token: Option<u64>)
    ensures
        grows(s.store, enter(s, c, token).0.store),
{
    lemma_call_scope_grows(s.store, c);
}

proof fn lemma_node_keeps_store(s: State, e: Expr, scope: Scope)
    ensures
        node_step(s, e, scope).store == s.store,
        node_step(s, e, scope).setup == s.setup,
        node_step(s, e, scope).modules == s.modules,
        node_step(s, e, scope).steps == s.steps,
{
}

proof fn lemma_call_grows(s: State, j: Job, f: spec_fn(FloatOp, u64, u64) -> u64)
    ensures
        grows(s.store, perform_call(s, j, f).0.store),
        perform_call(s, j, f).0.setup == s.setup,
        perform_call(s, j, f).0.modules == s.modules,
        perform_call(s, j, f).0.steps == s.steps,
{
    reveal(perform_call);
    match j {
        Job::Apply { names, provided, body, base, caller, name } => {
            lemma_enter_grows(
                s.popped_n(names.len()),
                Entering { names, provided, vals: s.top_n(names.len()), body, base, caller, name },
                None,
            );
        },
        Job::CallValue { args, caller } => {
            match s.top() {
                Val::Function { closure_id, env, self_name, repr, group, bound_this } => {
                    lemma_callee_base_grows(s.store, s.top(), env, self_name, group);
                },
                _ => {},
            }
        },
        _ => {},
    }
}

proof fn lemma_element_grows(s: State, j: Job, f: spec_fn(FloatOp, u64, u64) -> u64)
    ensures
        grows(s.store, perform_element(s, j, f).0.store),
        perform_element(s, j, f).0.setup == s.setup,
        perform_element(s, j, f).0.modules == s.modules,
        !(perform_element(s, j, f).1 is Failed) && !spent(s) ==> !spent(perform_element(s, j, f).0),
{
    reveal(perform_element);
    match j {
        Job::LcEachSplice { splice_inner } => {
            let inner = s.top();
            let t = if splice_inner {
                s.popped().warned(crate::iterate::items_warning(inner, f))
            } else {
                s.popped()
            };
            let cs = if splice_inner {
                crate::iterate::items_of(inner, f)
            } else {
                seq![inner]
            };
            lemma_each_keeps_store(t, cs, 0, Seq::empty(), f);
        },
        _ => {},
    }
}

proof fn lemma_cycle_grows(s: State, j: Job, f: spec_fn(FloatOp, u64, u64) -> u64)
    ensures
        grows(s.store, perform_cycle(s, j, f).0.store),
        perform_cycle(s, j, f).0.setup == s.setup,
        perform_cycle(s, j, f).0.modules == s.modules,
        perform_cycle(s, j, f).0.steps == s.steps,
{
    reveal(perform_cycle);
    match j {
        Job::LcForCStep(state) => {
            let t = s.child(state.outer);
            lemma_bind_vars_grows(t.store, t.here(), state.vars, state.vars.len());
            lemma_grows_trans(
                s.store,
                t.store,
                bind_vars(t.store, t.here(), state.vars, state.vars.len()).0,
            );
        },
        _ => {},
    }
}

proof fn lemma_binding_grows(s: State, j: Job, f: spec_fn(FloatOp, u64, u64) -> u64)
    ensures
        grows(s.store, perform_binding(s, j, f).0.store),
        perform_binding(s, j, f).0.setup == s.setup,
        perform_binding(s, j, f).0.modules == s.modules,
        perform_binding(s, j, f).0.steps == s.steps,
{
    reveal(perform_binding);
}

proof fn lemma_rest_grows(s: State, j: Job, f: spec_fn(FloatOp, u64, u64) -> u64)
    ensures
        perform_plain(s, j, f).0.store == s.store,
        perform_console(s, j, f).0.store == s.store,
        perform_plain(s, j, f).0.setup == s.setup,
        perform_plain(s, j, f).0.modules == s.modules,
        perform_plain(s, j, f).0.steps == s.steps,
        perform_console(s, j, f).0.setup == s.setup,
        perform_console(s, j, f).0.modules == s.modules,
        perform_console(s, j, f).0.steps == s.steps,
{
    reveal(perform_plain);
    reveal(perform_console);
}

proof fn lemma_elem_grows(s: State, e: Expr, scope: Scope)
    ensures
        grows(s.store, elem_step(s, e, scope).store),
        elem_step(s, e, scope).setup == s.setup,
        elem_step(s, e, scope).modules == s.modules,
        elem_step(s, e, scope).steps == s.steps,
{
}

proof fn lemma_perform_grows(s: State, j: Job, f: spec_fn(FloatOp, u64, u64) -> u64)
    ensures
        grows(s.store, perform(s, j, f).0.store),
        perform(s, j, f).0.setup == s.setup,
        perform(s, j, f).0.modules == s.modules,
        !(perform(s, j, f).1 is Failed) && !spent(s) ==> !spent(perform(s, j, f).0),
{
    lemma_call_grows(s, j, f);
    lemma_element_grows(s, j, f);
    lemma_cycle_grows(s, j, f);
    lemma_binding_grows(s, j, f);
    lemma_rest_grows(s, j, f);
    match j {
        Job::Eval(e, scope) => {
            lemma_node_keeps_store(s, e, scope);
        },
        Job::LcElem(e, scope) => {
            lemma_elem_grows(s, e, scope);
        },
        _ => {},
    }
}

/// A step leaves every binding that there was, the running modules and what the run was set up
/// with, as it was; and one that has not failed has not spent a budget that was not spent.
pub proof fn law_step_keeps_bindings(s: State, f: spec_fn(FloatOp, u64, u64) -> u64)
    ensures
        grows(s.store, step(s, f).0.store),
        step(s, f).0.setup == s.setup,
        step(s, f).0.modules == s.modules,
        !(step(s, f).1 is Failed) && !spent(s) ==> !spent(step(s, f).0),
{
    reveal(step);
    if s.tasks.len() > 0 {
        let j = s.tasks.last();
        let t = State { tasks: s.tasks.drop_last(), ..s };
        let u = if costs(j) {
            charged(t, 1).0
        } else {
            t
        };
        lemma_perform_grows(u, j, f);
    }
}

/// Going on with an answer leaves every binding that there was, the running modules, the steps
/// used and what the run was set up with, as it was.
pub proof fn law_answer_keeps_bindings(s: State, a: Answer)
    ensures
        resumed(s, a) matches Some((t, _)) ==> grows(s.store, t.store) && t.setup == s.setup
            && t.modules == s.modules && t.steps == s.steps,
{
    reveal(resumed);
    if s.tasks.len() > 0 {
        let t = State { tasks: s.tasks.drop_last(), ..s };
        match (s.tasks.last(), a) {
            (Job::AwaitJit(c), Answer::Compiled { value, draws }) => {
                lemma_enter_grows(State { draws, ..t }, c, None);
            },
            (Job::AwaitMemo(c), Answer::Memo { hit, token }) => {
                lemma_enter_grows(t, c, token);
            },
            _ => {},
        }
    }
}

/// A run leaves every binding that there was as it was, so a scope means afterwards what it meant
/// before; it leaves the running modules and what it was set up with as they were; and where it
/// gives a value it has not spent a budget that was not spent.
pub proof fn law_run_keeps_bindings(
    s: State,
    f: spec_fn(FloatOp, u64, u64) -> u64,
    h: spec_fn(Job, u64, Seq<Seq<char>>) -> Answer,
    n: nat,
)
    ensures
        grows(s.store, run_from(s, f, h, n).0.store),
        run_from(s, f, h, n).0.setup == s.setup,
        run_from(s, f, h, n).0.modules == s.modules,
        run_from(s, f, h, n).1 is Ok && !spent(s) ==> !spent(run_from(s, f, h, n).0),
    decreases n,
{
    if n > 0 {
        law_step_keeps_bindings(s, f);
        let (t, sig) = step(s, f);
        match sig {
            Sig::Running => {
                law_run_keeps_bindings(t, f, h, (n - 1) as nat);
                lemma_grows_trans(s.store, t.store, run_from(s, f, h, n).0.store);
            },
            Sig::Remember { .. } => {
                law_run_keeps_bindings(t, f, h, (n - 1) as nat);
                lemma_grows_trans(s.store, t.store, run_from(s, f, h, n).0.store);
            },
            Sig::Asking => {
                let a = h(t.tasks.last(), t.draws, t.modules);
                law_answer_keeps_bindings(t, a);
                match resumed(t, a) {
                    None => {},
                    Some((u, Sig::Failed(e))) => {
                        lemma_grows_trans(s.store, t.store, u.store);
                    },
                    Some((u, _)) => {
                        lemma_grows_trans(s.store, t.store, u.store);
                        law_run_keeps_bindings(u, f, h, (n - 1) as nat);
                        lemma_grows_trans(s.store, u.store, run_from(s, f, h, n).0.store);
                    },
                }
            },
            _ => {},
        }
    }
}

}

//! What a run has said stays said, and only a call that had no effect is remembered.

use vstd::prelude::*;

use crate::ast::Expr;
use crate::host::{resumed, Answer};
use crate::iterate::{item_count, items_of, items_warning};
use crate::machine::{
    charged, costs, each_from, elem_step, enter, node_step, perform, perform_binding, perform_call,
    perform_console, perform_cycle, perform_element, perform_plain, snap_of, step, Entering, Job,
    Sig, State,
};
use crate::num::FloatOp;
use crate::run::run_from;
use crate::scope::Scope;
use crate::value::Val;

verus! {

/// Whether a sequence goes on from another one.
pub open spec fn goes_on<T>(a: Seq<T>, b: Seq<T>) -> bool {
    &&& a.len() <= b.len()
    &&& forall|i: int| 0 <= i < a.len() ==> #[trigger] b[i] == a[i]
}

/// Whether a state has all that an earlier one has put on the console and made of functions.
pub open spec fn continues(a: State, b: State) -> bool {
    goes_on(a.log, b.log) && goes_on(a.closures, b.closures)
}

proof fn lemma_continues_on(a: State, b: State, c: State)
    requires
        continues(a, b),
        continues(b, c),
    ensures
        continues(a, c),
{
    assert forall|i: int| 0 <= i < a.log.len() implies #[trigger] c.log[i] == a.log[i] by {
        assert(b.log[i] == a.log[i]);
    }
    assert forall|i: int| 0 <= i < a.closures.len() implies #[trigger] c.closures[i]
        == a.closures[i] by {
        assert(b.closures[i] == a.closures[i]);
    }
}

proof fn lemma_each(
    s: State,
    cs: Seq<Val>,
    i: int,
    out: Seq<Val>,
    f: spec_fn(FloatOp, u64, u64) -> u64,
)
    ensures
        continues(s, each_from(s, cs, i, out, f).0),
    decreases cs.len() - i,
{
    if i < cs.len() {
        let (t, fault) = charged(s, item_count(cs[i], f) as u64);
        if fault is None {
            let u = t.warned(items_warning(cs[i], f));
            lemma_each(u, cs, i + 1, out + items_of(cs[i], f), f);
            lemma_continues_on(s, u, each_from(s, cs, i, out, f).0);
        }
    }
}

proof fn lemma_node(s: State, e: Expr, scope: Scope)
    ensures
        continues(s, node_step(s, e, scope)),
        continues(s, elem_step(s, e, scope)),
{
}

proof fn lemma_enter(s: State, c: Entering, token: Option<u64>)
    ensures
        continues(s, enter(s, c, token).0),
{
}

proof fn lemma_plain(s: State, j: Job, f: spec_fn(FloatOp, u64, u64) -> u64)
    ensures
        continues(s, perform_plain(s, j, f).0),
{
    reveal(perform_plain);
}

proof fn lemma_call(s: State, j: Job, f: spec_fn(FloatOp, u64, u64) -> u64)
    ensures
        continues(s, perform_call(s, j, f).0),
{
    reveal(perform_call);
}

proof fn lemma_element(s: State, j: Job, f: spec_fn(FloatOp, u64, u64) -> u64)
    ensures
        continues(s, perform_element(s, j, f).0),
{
    reveal(perform_element);
    match j {
        Job::LcEachSplice { splice_inner } => {
            let inner = s.top();
            let t = if splice_inner {
                s.popped().warned(items_warning(inner, f))
            } else {
                s.popped()
            };
            let cs = if splice_inner {
                items_of(inner, f)
            } else {
                seq![inner]
            };
            lemma_each(t, cs, 0, Seq::empty(), f);
            lemma_continues_on(s, t, each_from(t, cs, 0, Seq::empty(), f).0);
        },
        _ => {},
    }
}

proof fn lemma_rest(s: State, j: Job, f: spec_fn(FloatOp, u64, u64) -> u64)
    ensures
        continues(s, perform_console(s, j, f).0),
        continues(s, perform_cycle(s, j, f).0),
        continues(s, perform_binding(s, j, f).0),
{
    reveal(perform_console);
    reveal(perform_cycle);
    reveal(perform_binding);
}

/// A step takes nothing back of what the run has said, and forgets no function that it has made.
pub proof fn law_step_takes_nothing_back(s: State, f: spec_fn(FloatOp, u64, u64) -> u64)
    ensures
        continues(s, step(s, f).0),
{
    reveal(step);
    if s.tasks.len() > 0 {
        let j = s.tasks.last();
        let t = State { tasks: s.tasks.drop_last(), ..s };
        let u = if costs(j) {
            charged(t, 1).0
        } else {
            t
        };
        lemma_plain(u, j, f);
        lemma_call(u, j, f);
        lemma_element(u, j, f);
        lemma_rest(u, j, f);
        match j {
            Job::Eval(e, scope) => {
                lemma_node(u, e, scope);
            },
            Job::LcElem(e, scope) => {
                lemma_node(u, e, scope);
            },
            _ => {},
        }
        assert(continues(u, perform(u, j, f).0));
    }
}

/// Going on with an answer takes nothing back either.
pub proof fn law_answer_takes_nothing_back(s: State, a: Answer)
    ensures
        resumed(s, a) matches Some((t, _)) ==> continues(s, t),
{
    reveal(resumed);
}

/// A run takes nothing back of what it has said: its console only ever grows at the end.
pub proof fn law_run_takes_nothing_back(
    s: State,
    f: spec_fn(FloatOp, u64, u64) -> u64,
    h: spec_fn(Job, u64, Seq<Seq<char>>) -> Answer,
    n: nat,
)
    ensures
        continues(s, run_from(s, f, h, n).0),
    decreases n,
{
    if n > 0 {
        law_step_takes_nothing_back(s, f);
        let (t, sig) = step(s, f);
        let end = run_from(s, f, h, n).0;
        match sig {
            Sig::Running => {
                law_run_takes_nothing_back(t, f, h, (n - 1) as nat);
                lemma_continues_on(s, t, end);
            },
            Sig::Remember { .. } => {
                law_run_takes_nothing_back(t, f, h, (n - 1) as nat);
                lemma_continues_on(s, t, end);
            },
            Sig::Asking => {
                let a = h(t.tasks.last(), t.draws, t.modules);
                law_answer_takes_nothing_back(t, a);
                match resumed(t, a) {
                    None => {},
                    Some((u, Sig::Failed(e))) => {
                        lemma_continues_on(s, t, u);
                    },
                    Some((u, _)) => {
                        lemma_continues_on(s, t, u);
                        law_run_takes_nothing_back(u, f, h, (n - 1) as nat);
                        lemma_continues_on(s, u, end);
                    },
                }
            },
            _ => {},
        }
    }
}

/// A value is offered for remembering only at the end of a call whose counters stand where they
/// stood when it was entered; and it is the value of that call.
pub proof fn law_only_what_had_no_effect_is_remembered(
    s: State,
    f: spec_fn(FloatOp, u64, u64) -> u64,
)
    requires
        step(s, f).1 is Remember,
    ensures
        s.tasks.len() > 0,
        s.tasks.last() matches Job::CacheStore { token, snap } && snap == snap_of(s) && step(
            s,
            f,
        ).1 == (Sig::Remember { token, value: s.top() }),
{
    reveal(step);
    reveal(perform_plain);
    reveal(perform_call);
    reveal(perform_console);
    reveal(perform_element);
    reveal(perform_cycle);
    reveal(perform_binding);
}

/// Equal counters show that nothing was said and no function made in between.
pub proof fn law_equal_counters_mean_no_effect(a: State, b: State)
    requires
        continues(a, b),
        snap_of(a) == snap_of(b),
        b.log.len() <= usize::MAX,
        b.closures.len() <= usize::MAX,
    ensures
        b.log == a.log,
        b.closures == a.closures,
        b.draws == a.draws,
        b.impure_reads == a.impure_reads,
{
    assert(b.log =~= a.log);
    assert(b.closures =~= a.closures);
}

}

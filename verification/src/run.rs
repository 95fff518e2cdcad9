//! Running an expression to its value.

use vstd::prelude::*;

use crate::ast::{Expr, Name};
use crate::discipline::law_run_keeps_bindings;
use crate::eval::{Ctx, Signal};
use crate::host::{lemma_nothing_asked, resumed, Answer, Reply};
use crate::machine::{jobs, names_of, run_ok, step, Job, Sig, State, Task};
use crate::message::{Error, Fault};
use crate::num::{unit, unit_ok, FloatOp};
use crate::scope::{scope_ok, Scope};
use crate::value::{vals, Val, Value};

verus! {

/// The host can be asked anything, and its answer depends on the request, on how many random
/// numbers were drawn and on the running modules alone.
pub open spec fn host_ok<'a, H: Fn(&Task<'a>, u64, &Vec<Name>) -> Reply>(h: H) -> bool {
    &&& forall|t: &Task<'a>, d: u64, m: &Vec<Name>| call_requires(h, (t, d, m))
    &&& forall|t: &Task<'a>, u: &Task<'a>, d: u64, m: &Vec<Name>, n: &Vec<Name>, r: Reply, s: Reply|
        t@ == u@ && names_of(m@) == names_of(n@) && #[trigger] call_ensures(h, (t, d, m), r)
            && #[trigger] call_ensures(h, (u, d, n), s) ==> r@ == s@
}

/// Whether the host may give an answer.
pub open spec fn may_answer<'a, H: Fn(&Task<'a>, u64, &Vec<Name>) -> Reply>(
    h: H,
    j: Job,
    d: u64,
    modules: Seq<Seq<char>>,
    a: Answer,
) -> bool {
    exists|t: &Task<'a>, m: &Vec<Name>, r: Reply|
        t@ == j && names_of(m@) == modules && #[trigger] call_ensures(h, (t, d, m), r) && r@ == a
}

/// The host as a mathematical function.
pub open spec fn host<'a, H: Fn(&Task<'a>, u64, &Vec<Name>) -> Reply>(h: H) -> spec_fn(
    Job,
    u64,
    Seq<Seq<char>>,
) -> Answer {
    |j: Job, d: u64, modules: Seq<Seq<char>>| choose|a: Answer| may_answer(h, j, d, modules, a)
}

/// Asks the host.
pub fn ask_host<'a, H: Fn(&Task<'a>, u64, &Vec<Name>) -> Reply>(
    h: &H,
    t: &Task<'a>,
    d: u64,
    m: &Vec<Name>,
) -> (r: Reply)
    requires
        host_ok(*h),
    ensures
        r@ == host(*h)(t@, d, names_of(m@)),
{
    let r: Reply = h(t, d, m);
    proof {
        assert(may_answer(*h, t@, d, names_of(m@), r@));
        let a = host(*h)(t@, d, names_of(m@));
        assert(may_answer(*h, t@, d, names_of(m@), a));
    }
    r
}

/// The failure where the host's answer does not fit what was asked.
pub open spec fn misfit() -> Fault {
    Fault::Eval("the answer does not fit the request"@)
}

/// How a run of at most `n` steps goes on from a state. A value that is offered to be remembered is passed
/// over: its token is dropped, the value stays where it is, and the run goes on as if nothing had been
/// offered. What a call gives is the same either way; a host that does remember makes the steps itself,
/// takes each offer from the step that makes it, and answers later calls with what it kept.
pub open spec fn run_from(
    s: State,
    f: spec_fn(FloatOp, u64, u64) -> u64,
    h: spec_fn(Job, u64, Seq<Seq<char>>) -> Answer,
    n: nat,
) -> (State, Result<Val, Fault>)
    decreases n,
{
    if n == 0 {
        (s, Err(Fault::Unfinished))
    } else {
        let (t, sig) = step(s, f);
        match sig {
            Sig::Running => run_from(t, f, h, (n - 1) as nat),
            Sig::Remember { .. } => run_from(t, f, h, (n - 1) as nat),
            Sig::Done(v) => (t, Ok(v)),
            Sig::Failed(e) => (t, Err(e)),
            Sig::Asking => match resumed(t, h(t.tasks.last(), t.draws, t.modules)) {
                None => (t, Err(misfit())),
                Some((u, Sig::Failed(e))) => (u, Err(e)),
                Some((u, _)) => run_from(u, f, h, (n - 1) as nat),
            },
        }
    }
}

/// The state at the start of the evaluation of an expression.
pub open spec fn started(s: State, e: Expr, scope: Scope) -> State {
    State { tasks: seq![Job::Eval(e, scope)], values: Seq::empty(), ..s }
}

/// The state after an evaluation: the stacks are those from before it.
pub open spec fn back(s: State, t: State) -> State {
    State { tasks: s.tasks, values: s.values, ..t }
}

/// Evaluates an expression in at most `n` steps.
pub open spec fn eval_in(
    s: State,
    e: Expr,
    scope: Scope,
    f: spec_fn(FloatOp, u64, u64) -> u64,
    h: spec_fn(Job, u64, Seq<Seq<char>>) -> Answer,
    n: nat,
) -> (State, Result<Val, Fault>) {
    let (t, r) = run_from(started(s, e, scope), f, h, n);
    (back(s, t), r)
}

/// A result, mathematically.
pub open spec fn res(r: Result<Value, Error>) -> Result<Val, Fault> {
    match r {
        Ok(v) => Ok(v@),
        Err(e) => Err(e@),
    }
}

impl<'a> Ctx<'a> {
    /// Makes at most `fuel` steps, until the value is there. Values that are offered to be remembered are
    /// passed over: a run remembers nothing, whether the settings ask for it or not.
    pub fn run<F: Fn(FloatOp, u64, u64) -> u64, H: Fn(&Task<'a>, u64, &Vec<Name>) -> Reply>(
        &mut self,
        fpu: &F,
        h: &H,
        fuel: u64,
    ) -> (r: Result<Value, Error>)
        requires
            run_ok(old(self)@),
            unit_ok(*fpu),
            host_ok(*h),
        ensures
            (final(self)@, res(r)) == run_from(old(self)@, unit(*fpu), host(*h), fuel as nat),
            run_ok(final(self)@),
    {
        let ghost s0 = self@;
        let mut left: u64 = fuel;
        while left > 0
            invariant
                left <= fuel,
                run_ok(self@),
                unit_ok(*fpu),
                host_ok(*h),
                s0 == old(self)@,
                run_from(self@, unit(*fpu), host(*h), left as nat) == run_from(
                    s0,
                    unit(*fpu),
                    host(*h),
                    fuel as nat,
                ),
            decreases left,
        {
            left -= 1;
            match self.step(fpu) {
                Signal::Running => {},
                Signal::Remember { .. } => {},
                Signal::Done(v) => {
                    return Ok(v);
                },
                Signal::Failed(e) => {
                    return Err(e);
                },
                Signal::Asking => {
                    let n: usize = self.tasks.len();
                    if n == 0 {
                        proof {
                            lemma_nothing_asked(
                                self@,
                                host(*h)(self@.tasks.last(), self@.draws, self@.modules),
                            );
                        }
                        return Err(Error::Eval("the answer does not fit the request".to_owned()));
                    }
                    assert(self@.tasks.last() == self.tasks@[n - 1]@);
                    let reply: Reply = ask_host(
                        h,
                        &self.tasks[n - 1],
                        self.draws,
                        &self.module_stack,
                    );
                    match self.resume(reply) {
                        None => {
                            return Err(
                                Error::Eval("the answer does not fit the request".to_owned()),
                            );
                        },
                        Some(Signal::Failed(e)) => {
                            return Err(e);
                        },
                        Some(_) => {},
                    }
                },
            }
        }
        Err(Error::Unfinished)
    }

    /// Evaluates an expression in a scope in at most `fuel` steps.
    pub fn eval_with_ctx<
        F: Fn(FloatOp, u64, u64) -> u64,
        H: Fn(&Task<'a>, u64, &Vec<Name>) -> Reply,
    >(&mut self, root: &'a Expr, scope: Scope, fpu: &F, h: &H, fuel: u64) -> (r: Result<Value, Error>)
        requires
            run_ok(old(self)@),
            unit_ok(*fpu),
            host_ok(*h),
            scope_ok(old(self)@.store, scope),
        ensures
            (final(self)@, res(r)) == eval_in(
                old(self)@,
                *root,
                scope,
                unit(*fpu),
                host(*h),
                fuel as nat,
            ),
            run_ok(final(self)@),
    {
        let ghost s0 = self@;
        let mut tasks: Vec<Task<'a>> = Vec::new();
        let mut values: Vec<Value> = Vec::new();
        assert(jobs(tasks@) =~= Seq::<Job>::empty());
        assert(vals(values@) =~= Seq::<Val>::empty());
        std::mem::swap(&mut self.tasks, &mut tasks);
        std::mem::swap(&mut self.values, &mut values);
        self.push_task(Task::Eval(root, scope));
        assert(self@.tasks =~= seq![Job::Eval(*root, scope)]);
        assert(self@ == started(s0, *root, scope));
        let r: Result<Value, Error> = self.run(fpu, h, fuel);
        let ghost ended = self@;
        std::mem::swap(&mut self.tasks, &mut tasks);
        std::mem::swap(&mut self.values, &mut values);
        proof {
            law_run_keeps_bindings(started(s0, *root, scope), unit(*fpu), host(*h), fuel as nat);
            assert forall|i: int| 0 <= i < self@.tasks.len() implies crate::machine::job_ok(
                self@.store.len(),
                #[trigger] self@.tasks[i],
            ) by {
                crate::machine::lemma_job_stays_ok(
                    s0.store.len(),
                    ended.store.len(),
                    s0.tasks[i],
                );
            }
        }
        r
    }
}

/// An evaluation that has ended gives the same however many more steps it is allowed.
pub proof fn law_more_steps_change_nothing(
    s: State,
    f: spec_fn(FloatOp, u64, u64) -> u64,
    h: spec_fn(Job, u64, Seq<Seq<char>>) -> Answer,
    n: nat,
    m: nat,
)
    requires
        n <= m,
        run_from(s, f, h, n).1 != Err::<Val, Fault>(Fault::Unfinished),
    ensures
        run_from(s, f, h, m) == run_from(s, f, h, n),
    decreases n,
{
    if n > 0 {
        let (t, sig) = step(s, f);
        match sig {
            Sig::Running => {
                law_more_steps_change_nothing(t, f, h, (n - 1) as nat, (m - 1) as nat);
            },
            Sig::Remember { .. } => {
                law_more_steps_change_nothing(t, f, h, (n - 1) as nat, (m - 1) as nat);
            },
            Sig::Asking => {
                match resumed(t, h(t.tasks.last(), t.draws, t.modules)) {
                    None => {},
                    Some((u, Sig::Failed(e))) => {},
                    Some((u, _)) => {
                        law_more_steps_change_nothing(u, f, h, (n - 1) as nat, (m - 1) as nat);
                    },
                }
            },
            _ => {},
        }
    }
}

}

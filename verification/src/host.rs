//! What the evaluator asks of its host, and how it goes on with the answer.
//!
//! Builtins, native functions, compiled functions and the texts of values come from outside. A
//! run that needs one of them waits with the request on top of its task stack.

use vstd::prelude::*;

use crate::ast::Name;
use crate::chars::same;
use crate::console::{assert_error, assert_fault, echo_line, echo_text, shown_count, texts_of};
use crate::eval::{lemma_grown, Ctx, Signal};
use crate::machine::{
    body_step, enter, job_ok, jobs, run_ok, uncompiled, waits, Job, Sig, State, Task,
};
use crate::message::{lines, Error, Fault, Line, Message};
use crate::value::{Val, Value};

verus! {

/// The result of a compiled call, with the kind of value it stands for.
#[derive(Debug)]
pub enum JitOutcome {
    Num(u64),
    Bool(bool),
    Vec(Vec<u64>),
    Nested(Value),
}

/// The value that the result of a compiled call stands for.
pub open spec fn outcome_value(o: JitOutcome) -> Val {
    match o {
        JitOutcome::Num(n) => Val::Num(n),
        JitOutcome::Bool(b) => Val::Bool(b),
        JitOutcome::Vec(xs) => Val::NumList(xs@),
        JitOutcome::Nested(v) => v@,
    }
}

impl JitOutcome {
    /// The value that the result of a compiled call stands for.
    pub fn into_value(self) -> (r: Value)
        ensures
            r@ == outcome_value(self),
    {
        match self {
            JitOutcome::Num(n) => Value::Num(n),
            JitOutcome::Bool(b) => Value::Bool(b),
            JitOutcome::Vec(xs) => Value::num_list(xs),
            JitOutcome::Nested(v) => v,
        }
    }
}

/// An answer of the host. `draws` is how many numbers the random stream has given by then.
#[derive(Debug)]
pub enum Reply {
    /// What a builtin gave, and what it put on the console.
    Built { value: Value, messages: Vec<Message>, draws: u64 },
    /// What a native function gave.
    Native(Result<Value, Error>),
    /// The texts of the values asked for.
    Texts(Vec<String>),
    /// What a compiled function gave, where it took the call.
    Compiled { outcome: Option<JitOutcome>, draws: u64 },
    /// The value remembered for a call, or the token under which its value may be remembered.
    Memo { hit: Option<Value>, token: Option<u64> },
}

/// An answer, mathematically.
#[allow(inconsistent_fields)]
pub enum Answer {
    Built { value: Val, lines: Seq<Line>, draws: u64 },
    Native(Result<Val, Fault>),
    Texts(Seq<Seq<char>>),
    Compiled { value: Option<Val>, draws: u64 },
    Memo { hit: Option<Val>, token: Option<u64> },
}

impl View for Reply {
    type V = Answer;

    open spec fn view(&self) -> Answer {
        match *self {
            Reply::Built { value, messages, draws } => Answer::Built {
                value: value@,
                lines: lines(messages@),
                draws,
            },
            Reply::Native(r) => Answer::Native(
                match r {
                    Ok(v) => Ok(v@),
                    Err(e) => Err(e@),
                },
            ),
            Reply::Texts(ts) => Answer::Texts(texts_of(ts@)),
            Reply::Compiled { outcome, draws } => Answer::Compiled {
                value: match outcome {
                    Some(o) => Some(outcome_value(o)),
                    None => None,
                },
                draws,
            },
            Reply::Memo { hit, token } => Answer::Memo {
                hit: match hit {
                    Some(v) => Some(v@),
                    None => None,
                },
                token,
            },
        }
    }
}

/// The count of impure reads after a builtin: asking for the running modules is one.
pub open spec fn reads_after(name: Seq<char>, n: u64) -> u64 {
    if name == "parent_module"@ && n < u64::MAX {
        (n + 1) as u64
    } else {
        n
    }
}

/// How a waiting run goes on with an answer; nothing where it does not wait, or for something
/// else.
#[verifier::opaque]
pub open spec fn resumed(s: State, a: Answer) -> Option<(State, Sig)> {
    if s.tasks.len() == 0 {
        None
    } else {
        let t = State { tasks: s.tasks.drop_last(), ..s };
        match (s.tasks.last(), a) {
            (Job::AwaitBuiltin { name, .. }, Answer::Built { value, lines, draws }) => Some(
                (
                    (State {
                        log: t.log + lines,
                        draws,
                        impure_reads: reads_after(name, t.impure_reads),
                        ..t
                    }).value(value),
                    Sig::Running,
                ),
            ),
            (Job::AwaitNative { .. }, Answer::Native(r)) => Some(
                match r {
                    Ok(v) => (t.value(v), Sig::Running),
                    Err(e) => (t, Sig::Failed(e)),
                },
            ),
            (Job::AwaitEcho { args, body, scope, .. }, Answer::Texts(ts)) => Some(
                (
                    body_step(
                        t.say(Line::Echo(echo_text(args, ts, shown_count(args, ts)))),
                        body,
                        scope,
                    ),
                    Sig::Running,
                ),
            ),
            (Job::AwaitAssert { shown, .. }, Answer::Texts(ts)) => if ts.len() > 0 {
                Some((t, Sig::Failed(assert_fault(Some(ts[0]), shown))))
            } else {
                None
            },
            (Job::AwaitJit(c), Answer::Compiled { value, draws }) => {
                let u = State { draws, ..t };
                Some(
                    match value {
                        Some(v) => (u.value(v), Sig::Running),
                        None => uncompiled(u, c),
                    },
                )
            },
            (Job::AwaitMemo(c), Answer::Memo { hit, token }) => Some(
                match hit {
                    Some(v) => (t.value(v), Sig::Running),
                    None => enter(t, c, token),
                },
            ),
            _ => None,
        }
    }
}

/// A run without tasks waits for nothing.
pub proof fn lemma_nothing_asked(s: State, a: Answer)
    requires
        s.tasks.len() == 0,
    ensures
        resumed(s, a) is None,
{
    reveal(resumed);
}

impl<'a> Ctx<'a> {
    /// What the run waits for, where it waits.
    pub fn asked(&self) -> (r: Option<&Task<'a>>)
        ensures
            match r {
                Some(t) => self@.tasks.len() > 0 && t@ == self@.tasks.last() && waits(t@),
                None => self@.tasks.len() > 0 ==> !waits(self@.tasks.last()),
            },
    {
        let n: usize = self.tasks.len();
        if n == 0 {
            return None;
        }
        let t: &Task<'a> = &self.tasks[n - 1];
        assert(self@.tasks.last() == t@);
        let waiting: bool = match t {
            Task::AwaitBuiltin { .. } => true,
            Task::AwaitNative { .. } => true,
            Task::AwaitEcho { .. } => true,
            Task::AwaitAssert { .. } => true,
            Task::AwaitJit(_) => true,
            Task::AwaitMemo(_) => true,
            _ => false,
        };
        if waiting {
            Some(t)
        } else {
            None
        }
    }

    fn take_built(&mut self, name: &Name, value: Value, messages: Vec<Message>, draws: u64)
        requires
            run_ok(old(self)@),
        ensures
            final(self)@ == (State {
                log: old(self)@.log + lines(messages@),
                draws,
                impure_reads: reads_after(name@, old(self)@.impure_reads),
                ..old(self)@
            }).value(value@),
            run_ok(final(self)@),
    {
        let ghost before = self@;
        let mut more: Vec<Message> = messages;
        self.messages.append(&mut more);
        assert(lines(self.messages@) =~= before.log + lines(messages@));
        self.draws = draws;
        if same(name.as_str(), "parent_module") && self.impure_reads < u64::MAX {
            self.impure_reads = self.impure_reads + 1;
        }
        proof {
            lemma_grown(before, self@);
        }
        self.push_value(value);
    }

    /// Goes on with an answer; nothing, and no change, where the run does not wait for it.
    pub fn resume(&mut self, reply: Reply) -> (r: Option<Signal>)
        requires
            run_ok(old(self)@),
        ensures
            match r {
                Some(sig) => resumed(old(self)@, reply@) == Some((final(self)@, sig@)),
                None => resumed(old(self)@, reply@) is None && final(self)@ == old(self)@,
            },
            run_ok(final(self)@),
    {
        reveal(resumed);
        let ghost before = self@;
        let task: Task<'a> = match self.tasks.pop() {
            Some(t) => t,
            None => {
                assert(jobs(self.tasks@) =~= before.tasks);
                return None;
            },
        };
        assert(jobs(self.tasks@) =~= before.tasks.drop_last());
        assert(before.tasks.last() == task@);
        assert(job_ok(before.store.len(), before.tasks[before.tasks.len() - 1]));
        assert forall|i: int| 0 <= i < self@.tasks.len() implies job_ok(
            self@.store.len(),
            #[trigger] self@.tasks[i],
        ) by {
            assert(self@.tasks[i] == before.tasks[i]);
        }
        assert(before.tasks.drop_last().push(before.tasks.last()) =~= before.tasks);
        match (task, reply) {
            (Task::AwaitBuiltin { name, .. }, Reply::Built { value, messages, draws }) => {
                self.take_built(name, value, messages, draws);
                Some(Signal::Running)
            },
            (Task::AwaitNative { .. }, Reply::Native(r)) => match r {
                Ok(v) => {
                    self.push_value(v);
                    Some(Signal::Running)
                },
                Err(e) => Some(Signal::Failed(e)),
            },
            (Task::AwaitEcho { args, body, scope, .. }, Reply::Texts(ts)) => {
                self.say(Message::Echo(echo_line(args, &ts)));
                self.push_body(body, scope);
                Some(Signal::Running)
            },
            (Task::AwaitAssert { value, shown }, Reply::Texts(ts)) => {
                if ts.len() > 0 {
                    assert(texts_of(ts@)[0] == ts@[0]@);
                    Some(Signal::Failed(assert_error(Some(ts[0].as_str()), shown.as_str())))
                } else {
                    self.push_task(Task::AwaitAssert { value, shown });
                    None
                }
            },
            (Task::AwaitJit(c), Reply::Compiled { outcome, draws }) => {
                let ghost popped = self@;
                self.draws = draws;
                proof {
                    lemma_grown(popped, self@);
                }
                match outcome {
                    Some(o) => {
                        self.push_value(o.into_value());
                        Some(Signal::Running)
                    },
                    None => Some(self.run_uncompiled(c)),
                }
            },
            (Task::AwaitMemo(c), Reply::Memo { hit, token }) => match hit {
                Some(v) => {
                    self.push_value(v);
                    Some(Signal::Running)
                },
                None => Some(self.enter_call(c, token)),
            },
            (other, _) => {
                self.push_task(other);
                None
            },
        }
    }
}

}

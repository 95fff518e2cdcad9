//! The state of a run as it is held, and the small operations on it.

use vstd::prelude::*;

use crate::ast::Name;
use crate::capture::CaptureStack;
use crate::chars::{cat5, dec};
use crate::machine::{
    charged, jobs, job_ok, lemma_job_stays_ok, lemma_jobs_push, names_of, run_ok, Closure, Code,
    Def, FnDef, Setup, Sig, State, Task,
};
use crate::message::{lemma_lines_push, lines, Error, Line, Message};
use crate::ops::slot_text;
use crate::scope::{scope_ok, store_ok, Scope, Store};
use crate::value::{lemma_vals_push, vals, Value};

verus! {

/// How a run is bounded and sped up.
#[derive(Debug, Clone, Copy)]
pub struct Config {
    /// The greatest number of steps; none for no bound.
    pub eval_budget: Option<u64>,
    /// Whether named calls are offered to compiled code.
    pub jit: bool,
    /// Whether the values of calls are remembered.
    pub eval_cache: bool,
}

/// A run: what it is set up with, and its state.
#[derive(Debug)]
pub struct Ctx<'a> {
    pub functions: Vec<FnDef<'a>>,
    pub builtins: Vec<Name>,
    pub natives: Vec<Name>,
    pub globals: Vec<Scope>,
    pub config: Config,
    pub tasks: Vec<Task<'a>>,
    pub values: Vec<Value>,
    pub store: Store,
    pub closures: Vec<Closure<'a>>,
    pub messages: Vec<Message>,
    pub eval_steps: u64,
    pub live_calls: u32,
    pub impure_reads: u64,
    pub draws: u64,
    /// The names of the modules that are running, innermost last.
    pub module_stack: Vec<Name>,
    pub captures: CaptureStack,
}

/// Some definitions, mathematically.
pub open spec fn defs(fs: Seq<FnDef>) -> Seq<Def> {
    Seq::new(fs.len(), |i: int| fs[i]@)
}

/// The code of some function values, mathematically.
pub open spec fn codes(cs: Seq<Closure>) -> Seq<Code> {
    Seq::new(cs.len(), |i: int| cs[i]@)
}

impl<'a> View for Ctx<'a> {
    type V = State;

    open spec fn view(&self) -> State {
        State {
            tasks: jobs(self.tasks@),
            values: vals(self.values@),
            store: self.store@,
            closures: codes(self.closures@),
            log: lines(self.messages@),
            steps: self.eval_steps,
            live_calls: self.live_calls,
            impure_reads: self.impure_reads,
            draws: self.draws,
            modules: names_of(self.module_stack@),
            rec: self.captures@,
            setup: Setup {
                functions: defs(self.functions@),
                builtins: names_of(self.builtins@),
                natives: names_of(self.natives@),
                globals: self.globals@,
                budget: self.config.eval_budget,
                jit: self.config.jit,
                memo: self.config.eval_cache,
            },
        }
    }
}

/// How a step ended.
#[derive(Debug)]
pub enum Signal {
    Running,
    Done(Value),
    Failed(Error),
    Asking,
    Remember { token: u64, value: Value },
}

impl View for Signal {
    type V = Sig;

    open spec fn view(&self) -> Sig {
        match *self {
            Signal::Running => Sig::Running,
            Signal::Done(v) => Sig::Done(v@),
            Signal::Failed(e) => Sig::Failed(e@),
            Signal::Asking => Sig::Asking,
            Signal::Remember { token, value } => Sig::Remember { token, value: value@ },
        }
    }
}

impl<'a> Ctx<'a> {
    pub(crate) fn push_task(&mut self, t: Task<'a>)
        requires
            run_ok(old(self)@),
            job_ok(old(self)@.store.len(), t@),
        ensures
            final(self)@ == old(self)@.task(t@),
            run_ok(final(self)@),
    {
        broadcast use lemma_jobs_push;

        let ghost before = self@;
        self.tasks.push(t);
        assert forall|i: int| 0 <= i < self@.tasks.len() implies job_ok(
            self@.store.len(),
            #[trigger] self@.tasks[i],
        ) by {
            if i < before.tasks.len() {
                assert(self@.tasks[i] == before.tasks[i]);
            }
        }
    }

    pub(crate) fn push_value(&mut self, v: Value)
        requires
            run_ok(old(self)@),
        ensures
            final(self)@ == old(self)@.value(v@),
            run_ok(final(self)@),
    {
        broadcast use lemma_vals_push;

        self.values.push(v);
    }

    pub(crate) fn pop_value(&mut self) -> (r: Value)
        requires
            run_ok(old(self)@),
        ensures
            r@ == old(self)@.top(),
            final(self)@ == old(self)@.popped(),
            run_ok(final(self)@),
    {
        match self.values.pop() {
            Some(v) => {
                assert(vals(self.values@) =~= vals(old(self).values@).drop_last());
                v
            },
            None => Value::Undef,
        }
    }

    pub(crate) fn take_values(&mut self, n: usize) -> (r: Vec<Value>)
        requires
            run_ok(old(self)@),
        ensures
            vals(r@) == old(self)@.top_n(n as nat),
            final(self)@ == old(self)@.popped_n(n as nat),
            run_ok(final(self)@),
    {
        let len: usize = self.values.len();
        let keep: usize = if n <= len {
            len - n
        } else {
            0
        };
        let r: Vec<Value> = self.values.split_off(keep);
        assert(vals(r@) =~= old(self)@.top_n(n as nat));
        assert(vals(self.values@) =~= old(self)@.popped_n(n as nat).values);
        r
    }

    pub(crate) fn say(&mut self, m: Message)
        requires
            run_ok(old(self)@),
        ensures
            final(self)@ == old(self)@.say(m@),
            run_ok(final(self)@),
    {
        broadcast use lemma_lines_push;

        self.messages.push(m);
    }

    /// Puts a warning on the console.
    pub fn warn(&mut self, message: String)
        requires
            run_ok(old(self)@),
        ensures
            final(self)@ == old(self)@.say(Line::Warning(message@)),
            run_ok(final(self)@),
    {
        self.say(Message::Warning(message));
    }

    pub(crate) fn warn_opt(&mut self, w: Option<String>)
        requires
            run_ok(old(self)@),
        ensures
            final(self)@ == old(self)@.warned(slot_text(w)),
            run_ok(final(self)@),
    {
        match w {
            Some(t) => {
                self.warn(t);
            },
            None => {},
        }
    }

    pub(crate) fn child(&mut self, s: Scope) -> (r: Scope)
        requires
            run_ok(old(self)@),
            scope_ok(old(self)@.store, s),
        ensures
            final(self)@ == old(self)@.child(s),
            r == final(self)@.here(),
            r.at < final(self)@.store.len(),
            run_ok(final(self)@),
    {
        let ghost before = self@;
        let r: Scope = s.child(&mut self.store);
        proof {
            lemma_grown(before, self@);
        }
        r
    }

    pub(crate) fn bind_in(&mut self, s: Scope, name: Name, v: Value) -> (r: Scope)
        requires
            run_ok(old(self)@),
            scope_ok(old(self)@.store, s),
        ensures
            final(self)@ == old(self)@.binding(s, name@, v@),
            r == final(self)@.here(),
            r.at < final(self)@.store.len(),
            run_ok(final(self)@),
    {
        let ghost before = self@;
        let mut r: Scope = s;
        r.bind(&mut self.store, name, v);
        proof {
            lemma_grown(before, self@);
        }
        r
    }

    pub(crate) fn frame(&mut self, base: Scope, caller: Scope) -> (r: Scope)
        requires
            run_ok(old(self)@),
            scope_ok(old(self)@.store, base),
            scope_ok(old(self)@.store, caller),
        ensures
            final(self)@ == old(self)@.frame(base, caller),
            r == final(self)@.here(),
            r.at < final(self)@.store.len(),
            run_ok(final(self)@),
    {
        let ghost before = self@;
        let r: Scope = Scope::call_frame(&mut self.store, &base, &caller);
        proof {
            lemma_grown(before, self@);
        }
        r
    }

    /// Charges `n` steps against the budget; a failure once more are used than it allows.
    pub fn charge(&mut self, n: u64) -> (r: Result<(), Error>)
        requires
            run_ok(old(self)@),
        ensures
            final(self)@ == charged(old(self)@, n).0,
            match r {
                Ok(_) => charged(old(self)@, n).1 is None,
                Err(e) => charged(old(self)@, n).1 == Some(e@),
            },
            run_ok(final(self)@),
    {
        match self.config.eval_budget {
            None => Ok(()),
            Some(budget) => {
                let used: u64 = if n > u64::MAX - self.eval_steps {
                    u64::MAX
                } else {
                    self.eval_steps + n
                };
                self.eval_steps = used;
                if used > budget {
                    let text: String = cat5(
                        "eval budget exceeded: ",
                        dec(used).as_str(),
                        " steps > ",
                        dec(budget).as_str(),
                        " (untrusted-input resource limit; raise FAB_EVAL_BUDGET or Config::eval_budget)",
                    );
                    Err(Error::Eval(text))
                } else {
                    Ok(())
                }
            },
        }
    }
}

/// A run stays in order where only its store grows.
pub proof fn lemma_grown(a: State, b: State)
    requires
        run_ok(a),
        store_ok(b.store),
        a.store.len() <= b.store.len(),
        b.tasks == a.tasks,
        b.setup == a.setup,
    ensures
        run_ok(b),
{
    assert forall|i: int| 0 <= i < b.tasks.len() implies job_ok(
        b.store.len(),
        #[trigger] b.tasks[i],
    ) by {
        lemma_job_stays_ok(a.store.len(), b.store.len(), a.tasks[i]);
    }
}

}

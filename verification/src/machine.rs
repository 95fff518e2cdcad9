//! The expression machine: its tasks, its state, and what one step does.
//!
//! Evaluation runs on an explicit stack of tasks beside a stack of values, so that how deep a
//! program nests or recurses is bounded by the heap. This file says what a step is; the code that
//! makes it is in [`crate::step`]. What an expression gives, from what its parts give, is proved in
//! [`crate::rules`] and [`crate::elements`].
//!
//! A step that needs something from outside the library (a builtin, a native function, the text
//! of a value) leaves a waiting task on top of the stack; the answer is given back afterwards.

use vstd::prelude::*;

use crate::ast::{arg_exprs, opt_text, special, Arg, BinOp, Expr, ExprKind, Name, Parameter, UnOp};
use crate::calls::{matched, param_from, Matched};
use crate::capture::{after_read, Recorder};
use crate::chars::decimal;
use crate::console::{assert_fault, assert_parts, opt_expr, too_deep, too_deep_fault};
use crate::iterate::{generates, item_count, items_of, items_warning, named_value, range_of, spliced};
use crate::message::{Fault, Line};
use crate::num::{FloatOp, ONE};
use crate::ops::{combined, indexed, member_at, transformed, with_warning};
use crate::scope::{
    bound, call_cell, child_cell, local_function, meaning, newest, store_ok, Cell, Scope,
};
use crate::value::{truthy, vals, vector_of, Sibling, Val, Value};

verus! {

/// More calls than this cannot be under way at once.
pub const MAX_CALL_DEPTH: u32 = 1_000_000;

/// A C-style loop makes at most this many turns.
pub const MAX_CFOR_ITERATIONS: u64 = 1_000_000;

/// A call whose arguments are evaluated: names and values of what it binds, which of them come
/// from arguments, and where its body runs.
#[derive(Debug)]
pub struct Call<'a> {
    pub names: Vec<Name>,
    pub provided: Vec<bool>,
    pub vals: Vec<Value>,
    pub body: &'a Expr,
    pub base: Scope,
    pub caller: Scope,
    pub name: Option<&'a Name>,
}

/// A C-style loop under way.
#[derive(Debug)]
pub struct CFor<'a> {
    pub cond: &'a Expr,
    pub update: &'a Vec<Arg>,
    pub body: &'a Expr,
    pub outer: Scope,
    pub vars: Vec<(Name, Value)>,
    pub iterations: u64,
    pub acc: Vec<Value>,
    pub splice_item: bool,
}

/// The counters that show whether a piece of evaluation had an effect.
#[derive(Debug, Clone, Copy, PartialEq, Eq, Structural)]
pub struct PuritySnap {
    pub messages: usize,
    pub draws: u64,
    pub closures: usize,
    pub impure_reads: u64,
}

/// One entry of the task stack.
#[derive(Debug)]
#[allow(inconsistent_fields)]
pub enum Task<'a> {
    /// Evaluate an expression.
    Eval(&'a Expr, Scope),
    /// Give a value.
    Const(Value),
    /// Combine two values.
    Binary(BinOp),
    /// Transform a value.
    Unary(UnOp),
    /// Build a vector from the values of its elements.
    VectorSplice(&'a Vec<Expr>),
    /// Index a value by another.
    Index,
    /// Take a member of a value.
    Member(&'a Name),
    /// Build a range.
    Range { stepped: bool },
    /// Choose a branch.
    Ternary { yes: &'a Expr, no: &'a Expr, scope: Scope },
    /// Enter a call.
    Apply {
        names: Vec<Name>,
        provided: Vec<bool>,
        body: &'a Expr,
        base: Scope,
        caller: Scope,
        name: Option<&'a Name>,
    },
    /// Call a value.
    CallValue { args: &'a Vec<Arg>, caller: Scope },
    /// Run a builtin.
    Builtin { name: &'a Name, args: &'a Vec<Arg> },
    /// Run a native function.
    Native { name: &'a Name, nargs: usize },
    /// Show the values of an `echo`, then go on with its body.
    EchoEmit { args: &'a Vec<Arg>, body: Option<&'a Expr>, scope: Scope },
    /// Judge an assertion by its condition.
    AssertCheck {
        cond: bool,
        msg: Option<&'a Expr>,
        body: Option<&'a Expr>,
        shown: &'a Name,
        scope: Scope,
    },
    /// Judge an assertion once its message is known.
    AssertVerdict {
        passed: bool,
        impure_before: u64,
        body: Option<&'a Expr>,
        shown: &'a Name,
        scope: Scope,
    },
    /// Evaluate an element of a vector.
    LcElem(&'a Expr, Scope),
    /// Make a value the only element of a vector.
    WrapContribution,
    /// Choose the branch of a conditional element.
    LcIfBranch { yes: &'a Expr, no: Option<&'a Expr>, scope: Scope },
    /// Splice what `each` is given.
    LcEachSplice { splice_inner: bool },
    /// Begin the loop over the binding `at`, or the body where there is none.
    LcForBindings { bindings: &'a Vec<Arg>, at: usize, body: &'a Expr, scope: Scope },
    /// Begin a loop once its iterable is known.
    LcForStart { bindings: &'a Vec<Arg>, at: usize, body: &'a Expr, scope: Scope },
    /// Make a turn of a loop; `pending` where the turn before has left its value.
    LcForNext {
        bindings: &'a Vec<Arg>,
        at: usize,
        body: &'a Expr,
        var: Name,
        items: Vec<Value>,
        next: usize,
        frame: Scope,
        acc: Vec<Value>,
        splice_item: bool,
        pending: bool,
    },
    /// Bind a variable of a C-style loop before its first turn.
    CForInit { init: &'a Vec<Arg>, at: usize, scope: Scope, state: CFor<'a> },
    /// Begin a turn of a C-style loop.
    LcForCStep(CFor<'a>),
    /// Make a turn of a C-style loop once its condition is known.
    CForTest { loop_scope: Scope, state: CFor<'a> },
    /// Collect what a turn gave, and begin the updates.
    LcForCUpdate { loop_scope: Scope, state: CFor<'a> },
    /// Make one update of a C-style loop.
    CForSet { at: usize, loop_scope: Scope, state: CFor<'a> },
    /// Bind a name of a `let`, then go on with the next one or the body.
    LetStep { bindings: &'a Vec<Arg>, idx: usize, body: &'a Expr, scope: Scope },
    /// The same where the `let` is an element of a vector.
    LcLetStep { bindings: &'a Vec<Arg>, idx: usize, body: &'a Expr, scope: Scope },
    /// Give `undef`.
    PushUndef,
    /// Decide whether the right side of `&&` or `||` is evaluated at all.
    ShortCircuit { op: BinOp, rhs: &'a Expr, scope: Scope },
    /// Offer a call's value for remembering, where the call had no effect.
    CacheStore { token: u64, snap: PuritySnap },
    /// A call is over.
    CallReturn,
    /// Wait for a builtin.
    AwaitBuiltin { name: &'a Name, args: &'a Vec<Arg>, vals: Vec<Value> },
    /// Wait for a native function.
    AwaitNative { name: &'a Name, vals: Vec<Value> },
    /// Wait for the texts of the values of an `echo`.
    AwaitEcho { args: &'a Vec<Arg>, body: Option<&'a Expr>, scope: Scope, vals: Vec<Value> },
    /// Wait for the text of the message of a failed assertion.
    AwaitAssert { value: Value, shown: &'a Name },
    /// Wait for a compiled version of a call.
    AwaitJit(Call<'a>),
    /// Wait for a remembered value of a call.
    AwaitMemo(Call<'a>),
}

/// Some names, mathematically.
pub open spec fn names_of(ns: Seq<Name>) -> Seq<Seq<char>> {
    Seq::new(ns.len(), |i: int| ns[i]@)
}

/// Some named values, mathematically.
pub open spec fn named_vals(vs: Seq<(Name, Value)>) -> Seq<(Seq<char>, Val)> {
    Seq::new(vs.len(), |i: int| (vs[i].0@, vs[i].1@))
}

/// A call, mathematically.
pub struct Entering {
    pub names: Seq<Seq<char>>,
    pub provided: Seq<bool>,
    pub vals: Seq<Val>,
    pub body: Expr,
    pub base: Scope,
    pub caller: Scope,
    pub name: Option<Seq<char>>,
}

pub open spec fn opt_ref_text(n: Option<&Name>) -> Option<Seq<char>> {
    match n {
        Some(s) => Some(s@),
        None => None,
    }
}

impl<'a> View for Call<'a> {
    type V = Entering;

    open spec fn view(&self) -> Entering {
        Entering {
            names: names_of(self.names@),
            provided: self.provided@,
            vals: vals(self.vals@),
            body: *self.body,
            base: self.base,
            caller: self.caller,
            name: opt_ref_text(self.name),
        }
    }
}

/// A C-style loop, mathematically.
pub struct Cycle {
    pub cond: Expr,
    pub update: Seq<Arg>,
    pub body: Expr,
    pub outer: Scope,
    pub vars: Seq<(Seq<char>, Val)>,
    pub iterations: u64,
    pub acc: Seq<Val>,
    pub splice_item: bool,
}

impl<'a> View for CFor<'a> {
    type V = Cycle;

    open spec fn view(&self) -> Cycle {
        Cycle {
            cond: *self.cond,
            update: self.update@,
            body: *self.body,
            outer: self.outer,
            vars: named_vals(self.vars@),
            iterations: self.iterations,
            acc: vals(self.acc@),
            splice_item: self.splice_item,
        }
    }
}

/// A task, mathematically.
#[allow(inconsistent_fields)]
pub enum Job {
    Eval(Expr, Scope),
    Const(Val),
    Binary(BinOp),
    Unary(UnOp),
    VectorSplice(Seq<Expr>),
    Index,
    Member(Seq<char>),
    Range { stepped: bool },
    Ternary { yes: Expr, no: Expr, scope: Scope },
    Apply {
        names: Seq<Seq<char>>,
        provided: Seq<bool>,
        body: Expr,
        base: Scope,
        caller: Scope,
        name: Option<Seq<char>>,
    },
    CallValue { args: Seq<Arg>, caller: Scope },
    Builtin { name: Seq<char>, args: Seq<Arg> },
    Native { name: Seq<char>, nargs: nat },
    EchoEmit { args: Seq<Arg>, body: Option<Expr>, scope: Scope },
    AssertCheck {
        cond: bool,
        msg: Option<Expr>,
        body: Option<Expr>,
        shown: Seq<char>,
        scope: Scope,
    },
    AssertVerdict {
        passed: bool,
        impure_before: u64,
        body: Option<Expr>,
        shown: Seq<char>,
        scope: Scope,
    },
    LcElem(Expr, Scope),
    WrapContribution,
    LcIfBranch { yes: Expr, no: Option<Expr>, scope: Scope },
    LcEachSplice { splice_inner: bool },
    LcForBindings { bindings: Seq<Arg>, at: usize, body: Expr, scope: Scope },
    LcForStart { bindings: Seq<Arg>, at: usize, body: Expr, scope: Scope },
    LcForNext {
        bindings: Seq<Arg>,
        at: usize,
        body: Expr,
        var: Seq<char>,
        items: Seq<Val>,
        next: usize,
        frame: Scope,
        acc: Seq<Val>,
        splice_item: bool,
        pending: bool,
    },
    CForInit { init: Seq<Arg>, at: usize, scope: Scope, state: Cycle },
    LcForCStep(Cycle),
    CForTest { loop_scope: Scope, state: Cycle },
    LcForCUpdate { loop_scope: Scope, state: Cycle },
    CForSet { at: usize, loop_scope: Scope, state: Cycle },
    LetStep { bindings: Seq<Arg>, idx: usize, body: Expr, scope: Scope },
    LcLetStep { bindings: Seq<Arg>, idx: usize, body: Expr, scope: Scope },
    PushUndef,
    ShortCircuit { op: BinOp, rhs: Expr, scope: Scope },
    CacheStore { token: u64, snap: PuritySnap },
    CallReturn,
    AwaitBuiltin { name: Seq<char>, args: Seq<Arg>, vals: Seq<Val> },
    AwaitNative { name: Seq<char>, vals: Seq<Val> },
    AwaitEcho { args: Seq<Arg>, body: Option<Expr>, scope: Scope, vals: Seq<Val> },
    AwaitAssert { value: Val, shown: Seq<char> },
    AwaitJit(Entering),
    AwaitMemo(Entering),
}

impl<'a> View for Task<'a> {
    type V = Job;

    open spec fn view(&self) -> Job {
        match *self {
            Task::Eval(e, s) => Job::Eval(*e, s),
            Task::Const(v) => Job::Const(v@),
            Task::Binary(op) => Job::Binary(op),
            Task::Unary(op) => Job::Unary(op),
            Task::VectorSplice(es) => Job::VectorSplice(es@),
            Task::Index => Job::Index,
            Task::Member(n) => Job::Member(n@),
            Task::Range { stepped } => Job::Range { stepped },
            Task::Ternary { yes, no, scope } => Job::Ternary { yes: *yes, no: *no, scope },
            Task::Apply { names, provided, body, base, caller, name } => Job::Apply {
                names: names_of(names@),
                provided: provided@,
                body: *body,
                base,
                caller,
                name: opt_ref_text(name),
            },
            Task::CallValue { args, caller } => Job::CallValue { args: args@, caller },
            Task::Builtin { name, args } => Job::Builtin { name: name@, args: args@ },
            Task::Native { name, nargs } => Job::Native { name: name@, nargs: nargs as nat },
            Task::EchoEmit { args, body, scope } => Job::EchoEmit {
                args: args@,
                body: opt_expr(body),
                scope,
            },
            Task::AssertCheck { cond, msg, body, shown, scope } => Job::AssertCheck {
                cond,
                msg: opt_expr(msg),
                body: opt_expr(body),
                shown: shown@,
                scope,
            },
            Task::AssertVerdict { passed, impure_before, body, shown, scope } =>
                Job::AssertVerdict {
                    passed,
                    impure_before,
                    body: opt_expr(body),
                    shown: shown@,
                    scope,
                },
            Task::LcElem(e, s) => Job::LcElem(*e, s),
            Task::WrapContribution => Job::WrapContribution,
            Task::LcIfBranch { yes, no, scope } => Job::LcIfBranch {
                yes: *yes,
                no: opt_expr(no),
                scope,
            },
            Task::LcEachSplice { splice_inner } => Job::LcEachSplice { splice_inner },
            Task::LcForBindings { bindings, at, body, scope } => Job::LcForBindings {
                bindings: bindings@,
                at,
                body: *body,
                scope,
            },
            Task::LcForStart { bindings, at, body, scope } => Job::LcForStart {
                bindings: bindings@,
                at,
                body: *body,
                scope,
            },
            Task::LcForNext {
                bindings,
                at,
                body,
                var,
                items,
                next,
                frame,
                acc,
                splice_item,
                pending,
            } => Job::LcForNext {
                bindings: bindings@,
                at,
                body: *body,
                var: var@,
                items: vals(items@),
                next,
                frame,
                acc: vals(acc@),
                splice_item,
                pending,
            },
            Task::CForInit { init, at, scope, state } => Job::CForInit {
                init: init@,
                at,
                scope,
                state: state@,
            },
            Task::LcForCStep(state) => Job::LcForCStep(state@),
            Task::CForTest { loop_scope, state } => Job::CForTest { loop_scope, state: state@ },
            Task::LcForCUpdate { loop_scope, state } => Job::LcForCUpdate {
                loop_scope,
                state: state@,
            },
            Task::CForSet { at, loop_scope, state } => Job::CForSet {
                at,
                loop_scope,
                state: state@,
            },
            Task::LetStep { bindings, idx, body, scope } => Job::LetStep {
                bindings: bindings@,
                idx,
                body: *body,
                scope,
            },
            Task::LcLetStep { bindings, idx, body, scope } => Job::LcLetStep {
                bindings: bindings@,
                idx,
                body: *body,
                scope,
            },
            Task::PushUndef => Job::PushUndef,
            Task::ShortCircuit { op, rhs, scope } => Job::ShortCircuit { op, rhs: *rhs, scope },
            Task::CacheStore { token, snap } => Job::CacheStore { token, snap },
            Task::CallReturn => Job::CallReturn,
            Task::AwaitBuiltin { name, args, vals: vs } => Job::AwaitBuiltin {
                name: name@,
                args: args@,
                vals: vals(vs@),
            },
            Task::AwaitNative { name, vals: vs } => Job::AwaitNative { name: name@, vals: vals(vs@) },
            Task::AwaitEcho { args, body, scope, vals: vs } => Job::AwaitEcho {
                args: args@,
                body: opt_expr(body),
                scope,
                vals: vals(vs@),
            },
            Task::AwaitAssert { value, shown } => Job::AwaitAssert { value: value@, shown: shown@ },
            Task::AwaitJit(c) => Job::AwaitJit(c@),
            Task::AwaitMemo(c) => Job::AwaitMemo(c@),
        }
    }
}

/// Some tasks, mathematically.
pub open spec fn jobs(ts: Seq<Task>) -> Seq<Job> {
    Seq::new(ts.len(), |i: int| ts[i]@)
}

/// One more task.
pub broadcast proof fn lemma_jobs_push(ts: Seq<Task>, t: Task)
    ensures
        #[trigger] jobs(ts.push(t)) == jobs(ts).push(t@),
{
    assert(jobs(ts.push(t)) =~= jobs(ts).push(t@));
}

/// A function definition: its code, and the file whose top level its body sees.
#[derive(Debug)]
pub struct FnDef<'a> {
    pub name: &'a Name,
    pub params: &'a Vec<Parameter>,
    pub body: &'a Expr,
    /// The file whose top level its body sees.
    pub home: usize,
    /// The fingerprint of its parameters and body.
    pub fp: u64,
}

/// A function definition, mathematically.
pub struct Def {
    pub name: Seq<char>,
    pub params: Seq<Parameter>,
    pub body: Expr,
    pub home: usize,
    pub fp: u64,
}

impl<'a> View for FnDef<'a> {
    type V = Def;

    open spec fn view(&self) -> Def {
        Def {
            name: self.name@,
            params: self.params@,
            body: *self.body,
            home: self.home,
            fp: self.fp,
        }
    }
}

/// The code of a function value.
#[derive(Debug)]
pub struct Closure<'a> {
    pub params: &'a Vec<Parameter>,
    pub body: &'a Expr,
}

/// The code of a function value, mathematically.
pub struct Code {
    pub params: Seq<Parameter>,
    pub body: Expr,
}

impl<'a> View for Closure<'a> {
    type V = Code;

    open spec fn view(&self) -> Code {
        Code { params: self.params@, body: *self.body }
    }
}

/// What a run is set up with: the functions of the program, the names of the builtins and of the
/// functions that have a native version, the top-level scope of each file, the budget, and
/// whether compiled and remembered calls are asked for.
pub struct Setup {
    pub functions: Seq<Def>,
    pub builtins: Seq<Seq<char>>,
    pub natives: Seq<Seq<char>>,
    pub globals: Seq<Scope>,
    pub budget: Option<u64>,
    pub jit: bool,
    pub memo: bool,
}

/// The state of a run.
pub struct State {
    pub tasks: Seq<Job>,
    pub values: Seq<Val>,
    pub store: Seq<Cell>,
    pub closures: Seq<Code>,
    pub log: Seq<Line>,
    pub steps: u64,
    pub live_calls: u32,
    pub impure_reads: u64,
    pub draws: u64,
    pub modules: Seq<Seq<char>>,
    pub rec: Recorder,
    pub setup: Setup,
}

/// How a step ends.
pub enum Sig {
    /// There is more to do.
    Running,
    /// The value is there.
    Done(Val),
    /// The evaluation failed.
    Failed(Fault),
    /// The task on top waits for an answer.
    Asking,
    /// The value may be remembered under the token.
    Remember { token: u64, value: Val },
}

impl State {
    /// With one more task.
    pub open spec fn task(self, j: Job) -> State {
        State { tasks: self.tasks.push(j), ..self }
    }

    /// With more tasks, the last of them on top.
    pub open spec fn tasks(self, js: Seq<Job>) -> State {
        State { tasks: self.tasks + js, ..self }
    }

    /// With one more value.
    pub open spec fn value(self, v: Val) -> State {
        State { values: self.values.push(v), ..self }
    }

    /// The value on top; `undef` where there is none.
    pub open spec fn top(self) -> Val {
        if self.values.len() > 0 {
            self.values.last()
        } else {
            Val::Undef
        }
    }

    /// Without the value on top.
    pub open spec fn popped(self) -> State {
        if self.values.len() > 0 {
            State { values: self.values.drop_last(), ..self }
        } else {
            self
        }
    }

    /// How many values stay where `n` are taken.
    pub open spec fn rest_len(self, n: nat) -> nat {
        if n <= self.values.len() {
            (self.values.len() - n) as nat
        } else {
            0
        }
    }

    /// The `n` values on top.
    pub open spec fn top_n(self, n: nat) -> Seq<Val> {
        self.values.subrange(self.rest_len(n) as int, self.values.len() as int)
    }

    /// Without the `n` values on top.
    pub open spec fn popped_n(self, n: nat) -> State {
        State { values: self.values.take(self.rest_len(n) as int), ..self }
    }

    /// With one more line on the console.
    pub open spec fn say(self, l: Line) -> State {
        State { log: self.log.push(l), ..self }
    }

    /// With a warning, where there is one.
    pub open spec fn warned(self, w: Option<Seq<char>>) -> State {
        State { log: with_warning(self.log, w), ..self }
    }

    /// With a name bound in a scope.
    pub open spec fn binding(self, s: Scope, name: Seq<char>, v: Val) -> State {
        State { store: bound(self.store, s, name, v), ..self }
    }

    /// With a fresh frame below a scope.
    pub open spec fn child(self, s: Scope) -> State {
        State { store: self.store.push(child_cell(self.store, s)), ..self }
    }

    /// With a fresh frame for a call.
    pub open spec fn frame(self, base: Scope, caller: Scope) -> State {
        State { store: self.store.push(call_cell(self.store, base, caller)), ..self }
    }

    /// The newest place of the store.
    pub open spec fn here(self) -> Scope {
        newest(self.store)
    }
}

/// The sum of two counts, or the greatest count.
pub open spec fn sat_add(a: u64, n: u64) -> u64 {
    if a + n > u64::MAX {
        u64::MAX
    } else {
        (a + n) as u64
    }
}

/// The text of a spent budget.
pub open spec fn budget_text(used: u64, budget: u64) -> Seq<char> {
    "eval budget exceeded: "@ + decimal(used as nat) + " steps > "@ + decimal(budget as nat)
        + " (untrusted-input resource limit; raise FAB_EVAL_BUDGET or Config::eval_budget)"@
}

/// Charges `n` steps: nothing without a budget; a failure once more is used than there is.
pub open spec fn charged(s: State, n: u64) -> (State, Option<Fault>) {
    match s.setup.budget {
        None => (s, None),
        Some(b) => {
            let used = sat_add(s.steps, n);
            (
                State { steps: used, ..s },
                if used > b {
                    Some(Fault::Eval(budget_text(used, b)))
                } else {
                    None
                },
            )
        },
    }
}

/// Tasks that evaluate some expressions, the first of them on top.
pub open spec fn evals(es: Seq<Expr>, s: Scope) -> Seq<Job> {
    Seq::new(es.len(), |i: int| Job::Eval(es[es.len() - 1 - i], s))
}

/// The name that an argument binds.
pub open spec fn bound_name(a: Arg) -> Seq<char> {
    match a.name {
        Some(n) => n@,
        None => "_"@,
    }
}

/// The definition of a function.
pub open spec fn def_from(defs: Seq<Def>, name: Seq<char>, i: int) -> Option<Def>
    decreases defs.len() - i,
{
    if i >= defs.len() {
        None
    } else if defs[i].name == name {
        Some(defs[i])
    } else {
        def_from(defs, name, i + 1)
    }
}

/// Whether a name is in a list of names.
pub open spec fn known(names: Seq<Seq<char>>, name: Seq<char>) -> bool {
    exists|i: int| 0 <= i < names.len() && #[trigger] names[i] == name
}

/// Reads a name: what it means, and the state with the read recorded.
pub open spec fn read(s: State, scope: Scope, name: Seq<char>) -> (Option<Val>, State) {
    (
        meaning(s.store, scope, name),
        State { rec: after_read(s.store, s.rec, scope, name), ..s },
    )
}

/// An identifier: its meaning. An unbound one is `undef`, with a warning unless it is a `$`-name.
pub open spec fn ident_step(s: State, name: Seq<char>, scope: Scope) -> State {
    let (m, t) = read(s, scope, name);
    match m {
        Some(v) => t.value(v),
        None => if special(name) {
            t.value(Val::Undef)
        } else {
            t.say(Line::Warning("Ignoring unknown variable '"@ + name + "'"@)).value(Val::Undef)
        },
    }
}

/// The parameter that a receiver fills: one named `this`, where no argument fills it.
pub open spec fn this_place(params: Seq<Parameter>, m: Matched, this: Option<Val>) -> Option<int> {
    if this is Some {
        match param_from(params, "this"@, 0) {
            Some(i) => if m.slots[i] is None {
                Some(i)
            } else {
                None
            },
            None => None,
        }
    } else {
        None
    }
}

/// The task that gives the value of a parameter: the receiver, an argument in the caller's scope,
/// the default in the callee's, or `undef`.
pub open spec fn source(
    params: Seq<Parameter>,
    m: Matched,
    this: Option<Val>,
    caller: Scope,
    base: Scope,
    i: int,
) -> Job {
    if this_place(params, m, this) == Some(i) {
        Job::Const(this->Some_0)
    } else {
        match m.slots[i] {
            Some(e) => Job::Eval(e, caller),
            None => match params[i].default {
                Some(d) => Job::Eval(d, base),
                None => Job::PushUndef,
            },
        }
    }
}

/// The tasks that give the values of all parameters, the first of them on top.
pub open spec fn sources(
    params: Seq<Parameter>,
    m: Matched,
    this: Option<Val>,
    caller: Scope,
    base: Scope,
) -> Seq<Job> {
    Seq::new(
        params.len(),
        |i: int| source(params, m, this, caller, base, params.len() - 1 - i),
    )
}

/// The names that a call binds: the parameters, then what is bound beside them.
pub open spec fn call_names(params: Seq<Parameter>, m: Matched) -> Seq<Seq<char>> {
    Seq::new(params.len(), |i: int| params[i].name@) + Seq::new(
        m.extra.len(),
        |i: int| m.extra[i].0,
    )
}

/// Which of the names that a call binds come from arguments.
pub open spec fn call_provided(params: Seq<Parameter>, m: Matched, this: Option<Val>) -> Seq<bool> {
    Seq::new(
        params.len(),
        |i: int| m.slots[i] is Some || this_place(params, m, this) == Some(i),
    ) + Seq::new(m.extra.len(), |i: int| true)
}

/// The expressions bound beside the parameters.
pub open spec fn extra_exprs(m: Matched) -> Seq<Expr> {
    Seq::new(m.extra.len(), |i: int| m.extra[i].1)
}

/// Schedules a call: its values are evaluated, parameters first, and then it is entered. The name
/// stays with it only where nothing is bound beside the parameters.
pub open spec fn call_step(
    s: State,
    params: Seq<Parameter>,
    body: Expr,
    args: Seq<Arg>,
    caller: Scope,
    base: Scope,
    name: Option<Seq<char>>,
    this: Option<Val>,
) -> State {
    let m = matched(params, args, args.len());
    s.task(
        Job::Apply {
            names: call_names(params, m),
            provided: call_provided(params, m, this),
            body,
            base,
            caller,
            name: if m.extra.len() == 0 {
                name
            } else {
                None
            },
        },
    ).tasks(evals(extra_exprs(m), caller)).tasks(sources(params, m, this, caller, base))
}

/// Whether all arguments are positional.
pub open spec fn all_positional(args: Seq<Arg>) -> bool {
    forall|i: int| 0 <= i < args.len() ==> (#[trigger] args[i]).name is None
}

/// A call of a function that has a native version: directly where all arguments are positional
/// (those beyond the parameters are not evaluated), by matching where nothing is bound beside the
/// parameters, and otherwise not at all.
pub open spec fn native_step(s: State, def: Def, args: Seq<Arg>, scope: Scope) -> Option<State> {
    let m = matched(def.params, args, args.len());
    if all_positional(args) {
        let n = if args.len() < def.params.len() {
            args.len()
        } else {
            def.params.len()
        };
        Some(
            s.task(Job::Native { name: def.name, nargs: n }).tasks(
                evals(arg_exprs(args).take(n as int), scope),
            ),
        )
    } else if m.extra.len() == 0 {
        Some(
            s.task(Job::Native { name: def.name, nargs: def.params.len() }).tasks(
                sources(def.params, m, None, scope, s.setup.globals[def.home as int]),
            ),
        )
    } else {
        None
    }
}

/// A call of a defined function.
pub open spec fn def_step(s: State, def: Def, args: Seq<Arg>, scope: Scope) -> State {
    let native = native_step(s, def, args, scope);
    if known(s.setup.natives, def.name) && native is Some {
        native->Some_0
    } else {
        call_step(
            s,
            def.params,
            def.body,
            args,
            scope,
            s.setup.globals[def.home as int],
            Some(def.name),
            None,
        )
    }
}

/// A call of what an expression evaluates to.
pub open spec fn value_call_step(s: State, callee: Expr, args: Seq<Arg>, scope: Scope) -> State {
    s.task(Job::CallValue { args, caller: scope }).task(Job::Eval(callee, scope))
}

/// A call: of a function value bound below the top level, of a defined function, of a builtin,
/// of a name that means nothing (`undef`, with a warning), or of a value.
pub open spec fn dispatch(s: State, callee: Expr, args: Seq<Arg>, scope: Scope) -> State {
    match callee.kind {
        ExprKind::Ident(n) => {
            let name = n@;
            let local = local_function(s.store, scope, name);
            let def = def_from(s.setup.functions, name, 0);
            if local is Some {
                s.task(Job::CallValue { args, caller: scope }).task(Job::Const(local->Some_0))
            } else if def is Some {
                def_step(s, def->Some_0, args, scope)
            } else if known(s.setup.builtins, name) {
                s.task(Job::Builtin { name, args }).tasks(evals(arg_exprs(args), scope))
            } else {
                let (m, t) = read(s, scope, name);
                if m is None || m == Some(Val::Undef) {
                    t.say(Line::Warning("Ignoring unknown function '"@ + name + "'"@)).task(
                        Job::Const(Val::Undef),
                    )
                } else {
                    value_call_step(t, callee, args, scope)
                }
            }
        },
        _ => value_call_step(s, callee, args, scope),
    }
}

/// A `let`, or its body where it binds nothing.
pub open spec fn let_step(s: State, bindings: Seq<Arg>, body: Expr, scope: Scope) -> State {
    if bindings.len() == 0 {
        s.task(Job::Eval(body, scope))
    } else {
        s.task(Job::LetStep { bindings, idx: 0, body, scope }).task(
            Job::Eval(bindings[0].value, scope),
        )
    }
}

/// An expression is taken apart: a leaf gives its value, everything else schedules its parts.
pub open spec fn node_step(s: State, e: Expr, scope: Scope) -> State {
    match e.kind {
        ExprKind::Num(n) => s.value(Val::Num(n)),
        ExprKind::Bool(b) => s.value(Val::Bool(b)),
        ExprKind::Undef => s.value(Val::Undef),
        ExprKind::Str(t) => s.value(Val::Str(t@)),
        ExprKind::Ident(n) => ident_step(s, n@, scope),
        ExprKind::Unary { op, operand } => s.task(Job::Unary(op)).task(Job::Eval(*operand, scope)),
        ExprKind::Binary { op, lhs, rhs } => if op == BinOp::And || op == BinOp::Or {
            s.task(Job::ShortCircuit { op, rhs: *rhs, scope }).task(Job::Eval(*lhs, scope))
        } else {
            s.task(Job::Binary(op)).task(Job::Eval(*rhs, scope)).task(Job::Eval(*lhs, scope))
        },
        ExprKind::Ternary { cond, yes, no } => s.task(
            Job::Ternary { yes: *yes, no: *no, scope },
        ).task(Job::Eval(*cond, scope)),
        ExprKind::Vector(es) => s.task(Job::VectorSplice(es@)).tasks(evals(es@, scope)),
        ExprKind::Call { callee, args } => dispatch(s, *callee, args@, scope),
        ExprKind::Index { base, index } => s.task(Job::Index).task(Job::Eval(*index, scope)).task(
            Job::Eval(*base, scope),
        ),
        ExprKind::Member { base, field } => s.task(Job::Member(field@)).task(
            Job::Eval(*base, scope),
        ),
        ExprKind::Range { start, step, end } => {
            let t = s.task(Job::Range { stepped: step is Some }).task(Job::Eval(*end, scope));
            let u = match step {
                Some(p) => t.task(Job::Eval(*p, scope)),
                None => t,
            };
            u.task(Job::Eval(*start, scope))
        },
        ExprKind::FunctionLiteral { params, body, repr } => (State {
            closures: s.closures.push(Code { params: params@, body: *body }),
            ..s
        }).value(
            Val::Function {
                closure_id: s.closures.len() as usize,
                env: scope,
                self_name: None,
                repr: repr@,
                group: None,
                bound_this: None,
            },
        ),
        ExprKind::Let { bindings, body } => let_step(s, bindings@, *body, scope),
        ExprKind::Echo { args, body } => s.task(
            Job::EchoEmit {
                args: args@,
                body: match body {
                    Some(b) => Some(*b),
                    None => None,
                },
                scope,
            },
        ).tasks(evals(arg_exprs(args@), scope)),
        ExprKind::Assert { args, body, shown } => {
            let parts = assert_parts(args@, args@.len());
            let t = s.task(
                Job::AssertCheck {
                    cond: parts.cond is Some,
                    msg: parts.msg,
                    body: match body {
                        Some(b) => Some(*b),
                        None => None,
                    },
                    shown: shown@,
                    scope,
                },
            );
            match parts.cond {
                Some(c) => t.task(Job::Eval(c, scope)),
                None => t,
            }
        },
        ExprKind::LcFor { .. } => s.task(Job::LcElem(e, scope)),
        ExprKind::LcForC { .. } => s.task(Job::LcElem(e, scope)),
        ExprKind::LcEach(_) => s.task(Job::LcElem(e, scope)),
        ExprKind::LcIf { .. } => s.task(Job::LcElem(e, scope)),
    }
}

/// The elements of a vector from the values of its first `n` element expressions: an expression
/// that generates is spliced, any other gives one element.
pub open spec fn assembled(es: Seq<Expr>, vs: Seq<Val>, n: nat) -> Seq<Val>
    decreases n,
{
    if n == 0 {
        Seq::empty()
    } else if generates(es[n - 1]) {
        assembled(es, vs, (n - 1) as nat) + spliced(vs[n - 1])
    } else {
        assembled(es, vs, (n - 1) as nat).push(vs[n - 1])
    }
}

pub open spec fn shorter(a: nat, b: nat) -> nat {
    if a < b {
        a
    } else {
        b
    }
}

/// The body of an `echo` or an assertion, or `undef` where there is none.
pub open spec fn body_step(s: State, body: Option<Expr>, scope: Scope) -> State {
    match body {
        Some(b) => s.task(Job::Eval(b, scope)),
        None => s.value(Val::Undef),
    }
}

/// The store and the scope after binding those of the first `n` names whose origin is `want`.
pub open spec fn bind_where(
    st: Seq<Cell>,
    scope: Scope,
    c: Entering,
    want: bool,
    n: nat,
) -> (Seq<Cell>, Scope)
    decreases n,
{
    if n == 0 {
        (st, scope)
    } else {
        let (t, u) = bind_where(st, scope, c, want, (n - 1) as nat);
        if c.provided[n - 1] == want {
            (bound(t, u, c.names[n - 1], c.vals[n - 1]), newest(bound(t, u, c.names[n - 1], c.vals[n - 1])))
        } else {
            (t, u)
        }
    }
}

/// How many names of a call have a value and an origin.
pub open spec fn call_width(c: Entering) -> nat {
    shorter(c.names.len(), shorter(c.provided.len(), c.vals.len()))
}

/// The store and the scope of a call: a fresh frame, the defaults, then the arguments over them.
pub open spec fn call_scope(st: Seq<Cell>, c: Entering) -> (Seq<Cell>, Scope) {
    let t = st.push(call_cell(st, c.base, c.caller));
    let (u, v) = bind_where(t, newest(t), c, false, call_width(c));
    bind_where(u, v, c, true, call_width(c))
}

/// The failure where too many calls are under way.
pub open spec fn recursion_fault(name: Option<Seq<char>>) -> Fault {
    match name {
        Some(n) => Fault::Eval("Recursion detected calling function '"@ + n + "'"@),
        None => Fault::Eval(
            "Recursion detected calling function (over 1000000 calls in flight)"@,
        ),
    }
}

/// The counters of a state.
pub open spec fn snap_of(s: State) -> PuritySnap {
    PuritySnap {
        messages: s.log.len() as usize,
        draws: s.draws,
        closures: s.closures.len() as usize,
        impure_reads: s.impure_reads,
    }
}

/// A call is entered: its value is remembered under a token, where one was given for it.
pub open spec fn enter(s: State, c: Entering, token: Option<u64>) -> (State, Sig) {
    if s.live_calls >= MAX_CALL_DEPTH {
        (s, Sig::Failed(recursion_fault(c.name)))
    } else {
        let t = (State { live_calls: (s.live_calls + 1) as u32, ..s }).task(Job::CallReturn);
        let u = match token {
            Some(k) => t.task(Job::CacheStore { token: k, snap: snap_of(s) }),
            None => t,
        };
        let (st, scope) = call_scope(u.store, c);
        ((State { store: st, ..u }).task(Job::Eval(c.body, scope)), Sig::Running)
    }
}

/// A call that has no compiled version: remembered values are asked for, or it is entered.
pub open spec fn uncompiled(s: State, c: Entering) -> (State, Sig) {
    if s.setup.memo {
        (s.task(Job::AwaitMemo(c)), Sig::Asking)
    } else {
        enter(s, c, None)
    }
}

/// A call with its values: a compiled version is asked for where it has a name.
pub open spec fn apply_step(s: State, c: Entering) -> (State, Sig) {
    if s.setup.jit && c.name is Some {
        (s.task(Job::AwaitJit(c)), Sig::Asking)
    } else {
        uncompiled(s, c)
    }
}

/// A function of a group as a value that captured `env`.
pub open spec fn sibling_value(b: Sibling, env: Scope, group: Option<Seq<Sibling>>) -> Val {
    Val::Function {
        closure_id: b.closure_id,
        env,
        self_name: Some(b.name),
        repr: b.repr,
        group,
        bound_this: None,
    }
}

/// The store and the scope after binding the first `n` functions of a group.
pub open spec fn bind_group(
    st: Seq<Cell>,
    scope: Scope,
    env: Scope,
    group: Seq<Sibling>,
    n: nat,
) -> (Seq<Cell>, Scope)
    decreases n,
{
    if n == 0 {
        (st, scope)
    } else {
        let (t, u) = bind_group(st, scope, env, group, (n - 1) as nat);
        let b = bound(t, u, group[n - 1].name, sibling_value(group[n - 1], env, Some(group)));
        (b, newest(b))
    }
}

/// The store and the scope that the body of a function value is based on: what it captured, with
/// its group and itself bound by name.
pub open spec fn callee_base(
    st: Seq<Cell>,
    callee: Val,
    env: Scope,
    self_name: Option<Seq<char>>,
    group: Option<Seq<Sibling>>,
) -> (Seq<Cell>, Scope) {
    if self_name is None && (group is None || group->Some_0.len() == 0) {
        (st, env)
    } else {
        let t = st.push(child_cell(st, env));
        let (u, v) = match group {
            Some(g) => bind_group(t, newest(t), env, g, g.len()),
            None => (t, newest(t)),
        };
        match self_name {
            Some(n) => (bound(u, v, n, callee), newest(bound(u, v, n, callee))),
            None => (u, v),
        }
    }
}

/// A value is called: a function of this run is, anything else gives `undef`.
pub open spec fn call_value_step(s: State, callee: Val, args: Seq<Arg>, caller: Scope) -> State {
    match callee {
        Val::Function { closure_id, env, self_name, repr, group, bound_this } => if closure_id
            < s.closures.len() && env.at < s.store.len() {
            let (st, base) = callee_base(s.store, callee, env, self_name, group);
            let code = s.closures[closure_id as int];
            call_step(
                State { store: st, ..s },
                code.params,
                code.body,
                args,
                caller,
                base,
                None,
                match bound_this {
                    Some(ms) => Some(Val::Object(ms)),
                    None => None,
                },
            )
        } else {
            s.value(Val::Undef)
        },
        _ => s.value(Val::Undef),
    }
}

/// Whether a `let` has bound the name of its binding `idx` before.
pub open spec fn bound_before(bindings: Seq<Arg>, idx: int) -> bool {
    bindings[idx].name is Some && exists|j: int|
        0 <= j < idx && opt_text((#[trigger] bindings[j]).name) == opt_text(bindings[idx].name)
}

/// A name of a `let` is bound in a fresh frame; a name bound before in the same `let` keeps its
/// value, with a warning.
pub open spec fn let_bind(s: State, bindings: Seq<Arg>, idx: int, v: Val, scope: Scope) -> (
    State,
    Scope,
) {
    let name = bound_name(bindings[idx]);
    if bound_before(bindings, idx) {
        (
            s.say(Line::Warning("Ignoring duplicate variable assignment \""@ + name + "\""@)),
            scope,
        )
    } else {
        let t = s.child(scope);
        let u = t.binding(t.here(), name, named_value(v, name));
        (u, u.here())
    }
}

/// The next binding of a `let`, or its body.
pub open spec fn let_next(
    s: State,
    bindings: Seq<Arg>,
    idx: usize,
    body: Expr,
    scope: Scope,
    elem: bool,
) -> State {
    let k = idx + 1;
    if k < bindings.len() {
        s.task(
            if elem {
                Job::LcLetStep { bindings, idx: k as usize, body, scope }
            } else {
                Job::LetStep { bindings, idx: k as usize, body, scope }
            },
        ).task(Job::Eval(bindings[k].value, scope))
    } else if elem {
        s.task(Job::LcElem(body, scope))
    } else {
        s.task(Job::Eval(body, scope))
    }
}

/// The body of a loop or a branch: as a contribution where it generates, as a value otherwise.
pub open spec fn item_step(s: State, body: Expr, scope: Scope) -> State {
    if generates(body) {
        s.task(Job::LcElem(body, scope))
    } else {
        s.task(Job::Eval(body, scope))
    }
}

/// The body of a branch as a contribution.
pub open spec fn contribution_step(s: State, body: Expr, scope: Scope) -> State {
    if generates(body) {
        s.task(Job::LcElem(body, scope))
    } else {
        s.task(Job::WrapContribution).task(Job::Eval(body, scope))
    }
}

/// The next binding before the first turn of a C-style loop, or that turn.
pub open spec fn cfor_init_next(s: State, init: Seq<Arg>, at: int, scope: Scope, state: Cycle) -> State {
    if at < init.len() {
        s.task(Job::CForInit { init, at: at as usize, scope, state }).task(
            Job::Eval(init[at].value, scope),
        )
    } else {
        s.task(Job::LcForCStep(state))
    }
}

/// An element of a vector is taken apart.
pub open spec fn elem_step(s: State, e: Expr, scope: Scope) -> State {
    match e.kind {
        ExprKind::LcFor { bindings, body } => s.task(
            Job::LcForBindings { bindings: bindings@, at: 0, body: *body, scope },
        ),
        ExprKind::LcForC { init, cond, update, body } => {
            let t = s.child(scope);
            cfor_init_next(
                t,
                init@,
                0,
                t.here(),
                Cycle {
                    cond: *cond,
                    update: update@,
                    body: *body,
                    outer: scope,
                    vars: Seq::empty(),
                    iterations: 0,
                    acc: Seq::empty(),
                    splice_item: generates(*body),
                },
            )
        },
        ExprKind::LcEach(inner) => s.task(
            Job::LcEachSplice { splice_inner: generates(*inner) },
        ).task(Job::LcElem(*inner, scope)),
        ExprKind::LcIf { cond, yes, no } => s.task(
            Job::LcIfBranch {
                yes: *yes,
                no: match no {
                    Some(b) => Some(*b),
                    None => None,
                },
                scope,
            },
        ).task(Job::Eval(*cond, scope)),
        ExprKind::Let { bindings, body } => if bindings@.len() == 0 {
            s.task(Job::LcElem(*body, scope))
        } else {
            s.task(Job::LcLetStep { bindings: bindings@, idx: 0, body: *body, scope }).task(
                Job::Eval(bindings@[0].value, scope),
            )
        },
        _ => s.task(Job::Eval(e, scope)),
    }
}

/// Splices the contributions from `i` on: each is charged for what it yields before it does.
pub open spec fn each_from(
    s: State,
    cs: Seq<Val>,
    i: int,
    out: Seq<Val>,
    f: spec_fn(FloatOp, u64, u64) -> u64,
) -> (State, Option<Fault>, Seq<Val>)
    decreases cs.len() - i,
{
    if i >= cs.len() {
        (s, None, out)
    } else {
        let (t, fault) = charged(s, item_count(cs[i], f) as u64);
        if fault is Some {
            (t, fault, out)
        } else {
            each_from(
                t.warned(items_warning(cs[i], f)),
                cs,
                i + 1,
                out + items_of(cs[i], f),
                f,
            )
        }
    }
}

/// What a turn of a loop gave is collected.
pub open spec fn collected(
    s: State,
    acc: Seq<Val>,
    splice_item: bool,
    f: spec_fn(FloatOp, u64, u64) -> u64,
) -> (State, Seq<Val>) {
    if splice_item {
        (s.popped().warned(items_warning(s.top(), f)), acc + items_of(s.top(), f))
    } else {
        (s.popped(), acc.push(s.top()))
    }
}

/// The variables after setting one: a known one keeps its place.
pub open spec fn set_var(vars: Seq<(Seq<char>, Val)>, name: Seq<char>, v: Val, i: int) -> Seq<
    (Seq<char>, Val),
>
    decreases vars.len() - i,
{
    if i >= vars.len() {
        vars.push((name, v))
    } else if vars[i].0 == name {
        vars.update(i, (name, v))
    } else {
        set_var(vars, name, v, i + 1)
    }
}

/// The store and the scope after binding the first `n` variables.
pub open spec fn bind_vars(st: Seq<Cell>, scope: Scope, vars: Seq<(Seq<char>, Val)>, n: nat) -> (
    Seq<Cell>,
    Scope,
)
    decreases n,
{
    if n == 0 {
        (st, scope)
    } else {
        let (t, u) = bind_vars(st, scope, vars, (n - 1) as nat);
        let b = bound(t, u, vars[n - 1].0, vars[n - 1].1);
        (b, newest(b))
    }
}

/// The next update of a C-style loop, or its next turn; a failure after too many turns.
pub open spec fn cfor_set_next(s: State, at: int, loop_scope: Scope, state: Cycle) -> (State, Sig) {
    if at < state.update.len() {
        (
            s.task(Job::CForSet { at: at as usize, loop_scope, state }).task(
                Job::Eval(state.update[at].value, loop_scope),
            ),
            Sig::Running,
        )
    } else if state.iterations >= MAX_CFOR_ITERATIONS {
        (s, Sig::Failed(Fault::Eval("For loop counter exceeded limit"@)))
    } else {
        (
            s.task(
                Job::LcForCStep(Cycle { iterations: (state.iterations + 1) as u64, ..state }),
            ),
            Sig::Running,
        )
    }
}

/// A loop begins once its iterable is known: it is charged for, and then refused or unrolled.
pub open spec fn for_start(
    s: State,
    bindings: Seq<Arg>,
    at: usize,
    body: Expr,
    scope: Scope,
    f: spec_fn(FloatOp, u64, u64) -> u64,
) -> (State, Sig) {
    let iterable = s.top();
    let (t, fault) = charged(s.popped(), item_count(iterable, f) as u64);
    if fault is Some {
        (t, Sig::Failed(fault->Some_0))
    } else {
        let u = t.child(scope).warned(items_warning(iterable, f));
        (
            u.task(
                Job::LcForNext {
                    bindings,
                    at: (at + 1) as usize,
                    body,
                    var: bound_name(bindings[at as int]),
                    items: items_of(iterable, f),
                    next: 0,
                    frame: u.here(),
                    acc: Seq::empty(),
                    splice_item: at + 1 < bindings.len() || generates(body),
                    pending: false,
                },
            ),
            Sig::Running,
        )
    }
}

/// A turn of a loop: the turn before is collected, the variable bound to the next item and the
/// rest of the loop scheduled; or the vector is built.
pub open spec fn for_next(
    s: State,
    bindings: Seq<Arg>,
    at: usize,
    body: Expr,
    var: Seq<char>,
    items: Seq<Val>,
    next: usize,
    frame: Scope,
    acc: Seq<Val>,
    splice_item: bool,
    pending: bool,
    f: spec_fn(FloatOp, u64, u64) -> u64,
) -> State {
    let (t, got) = if pending {
        collected(s, acc, splice_item, f)
    } else {
        (s, acc)
    };
    if next < items.len() {
        let u = t.binding(frame, var, items[next as int]);
        let w = u.task(
            Job::LcForNext {
                bindings,
                at,
                body,
                var,
                items,
                next: (next + 1) as usize,
                frame,
                acc: got,
                splice_item,
                pending: true,
            },
        );
        if at < bindings.len() {
            w.task(Job::LcForBindings { bindings, at, body, scope: u.here() })
        } else {
            item_step(w, body, u.here())
        }
    } else {
        t.value(vector_of(got))
    }
}

/// The outcome of an assertion whose message, where it has one, is known.
pub open spec fn verdict_step(
    s: State,
    passed: bool,
    message: Option<Val>,
    body: Option<Expr>,
    shown: Seq<char>,
    scope: Scope,
) -> (State, Sig) {
    if passed {
        (body_step(s, body, scope), Sig::Running)
    } else {
        match message {
            None => (s, Sig::Failed(assert_fault(None, shown))),
            Some(Val::Str(t)) => (s, Sig::Failed(assert_fault(Some(t), shown))),
            Some(v) => (s.task(Job::AwaitAssert { value: v, shown }), Sig::Asking),
        }
    }
}

/// A task that computes on the values on top.
#[verifier::opaque]
pub open spec fn perform_plain(s: State, j: Job, f: spec_fn(FloatOp, u64, u64) -> u64) -> (
    State,
    Sig,
) {
    match j {
        Job::Const(v) => (s.value(v), Sig::Running),
        Job::Binary(op) => {
            let (v, w) = combined(op, s.popped().top(), s.top(), f);
            (s.popped().popped().warned(w).value(v), Sig::Running)
        },
        Job::Unary(op) => {
            let (v, w) = transformed(op, s.top(), f);
            (s.popped().warned(w).value(v), Sig::Running)
        },
        Job::VectorSplice(es) => {
            let vs = s.top_n(es.len());
            (
                s.popped_n(es.len()).value(
                    vector_of(assembled(es, vs, shorter(es.len(), vs.len()))),
                ),
                Sig::Running,
            )
        },
        Job::Index => (
            s.popped().popped().value(indexed(s.popped().top(), s.top())),
            Sig::Running,
        ),
        Job::Member(field) => (s.popped().value(member_at(s.top(), field)), Sig::Running),
        Job::Range { stepped } => {
            let t = s.popped();
            if stepped {
                (
                    t.popped().popped().value(range_of(t.popped().top(), t.top(), s.top())),
                    Sig::Running,
                )
            } else {
                (t.popped().value(range_of(t.top(), Val::Num(ONE), s.top())), Sig::Running)
            }
        },
        Job::Ternary { yes, no, scope } => (
            s.popped().task(
                Job::Eval(
                    if truthy(s.top()) {
                        yes
                    } else {
                        no
                    },
                    scope,
                ),
            ),
            Sig::Running,
        ),
        Job::WrapContribution => (s.popped().value(vector_of(seq![s.top()])), Sig::Running),
        Job::PushUndef => (s.value(Val::Undef), Sig::Running),
        Job::ShortCircuit { op, rhs, scope } => {
            let or = op == BinOp::Or;
            if truthy(s.top()) == or {
                (s.popped().value(Val::Bool(or)), Sig::Running)
            } else {
                (
                    s.popped().value(s.top()).task(Job::Binary(op)).task(Job::Eval(rhs, scope)),
                    Sig::Running,
                )
            }
        },
        _ => (s.task(j), Sig::Asking),
    }
}

/// A task of a call.
#[verifier::opaque]
pub open spec fn perform_call(s: State, j: Job, f: spec_fn(FloatOp, u64, u64) -> u64) -> (
    State,
    Sig,
) {
    match j {
        Job::Apply { names, provided, body, base, caller, name } => apply_step(
            s.popped_n(names.len()),
            Entering { names, provided, vals: s.top_n(names.len()), body, base, caller, name },
        ),
        Job::CallValue { args, caller } => (
            call_value_step(s.popped(), s.top(), args, caller),
            Sig::Running,
        ),
        Job::Builtin { name, args } => (
            s.popped_n(args.len()).task(
                Job::AwaitBuiltin { name, args, vals: s.top_n(args.len()) },
            ),
            Sig::Asking,
        ),
        Job::Native { name, nargs } => (
            s.popped_n(nargs).task(
                Job::AwaitNative { name, vals: s.top_n(nargs) },
            ),
            Sig::Asking,
        ),
        Job::CacheStore { token, snap } => if s.values.len() > 0 && snap_of(s) == snap {
            (s, Sig::Remember { token, value: s.top() })
        } else {
            (s, Sig::Running)
        },
        Job::CallReturn => (
            State {
                live_calls: if s.live_calls > 0 {
                    (s.live_calls - 1) as u32
                } else {
                    0
                },
                ..s
            },
            Sig::Running,
        ),
        _ => (s.task(j), Sig::Asking),
    }
}

/// A task of an `echo` or an assertion.
#[verifier::opaque]
pub open spec fn perform_console(s: State, j: Job, f: spec_fn(FloatOp, u64, u64) -> u64) -> (
    State,
    Sig,
) {
    match j {
        Job::EchoEmit { args, body, scope } => {
            let vs = s.top_n(args.len());
            if too_deep(vs) {
                (s.popped_n(args.len()), Sig::Failed(too_deep_fault()))
            } else {
                (
                    s.popped_n(args.len()).task(Job::AwaitEcho { args, body, scope, vals: vs }),
                    Sig::Asking,
                )
            }
        },
        Job::AssertCheck { cond, msg, body, shown, scope } => {
            let t = if cond {
                s.popped()
            } else {
                s
            };
            let passed = cond && truthy(s.top());
            match msg {
                Some(m) => (
                    t.task(
                        Job::AssertVerdict {
                            passed,
                            impure_before: s.impure_reads,
                            body,
                            shown,
                            scope,
                        },
                    ).task(Job::Eval(m, scope)),
                    Sig::Running,
                ),
                None => verdict_step(t, passed, None, body, shown, scope),
            }
        },
        Job::AssertVerdict { passed, impure_before, body, shown, scope } => verdict_step(
            State { impure_reads: impure_before, ..s.popped() },
            passed,
            Some(s.top()),
            body,
            shown,
            scope,
        ),
        _ => (s.task(j), Sig::Asking),
    }
}

/// A task of an element of a vector.
#[verifier::opaque]
pub open spec fn perform_element(s: State, j: Job, f: spec_fn(FloatOp, u64, u64) -> u64) -> (
    State,
    Sig,
) {
    match j {
        Job::LcIfBranch { yes, no, scope } => {
            let taken = if truthy(s.top()) {
                Some(yes)
            } else {
                no
            };
            match taken {
                Some(b) => (contribution_step(s.popped(), b, scope), Sig::Running),
                None => (s.popped().value(vector_of(Seq::empty())), Sig::Running),
            }
        },
        Job::LcEachSplice { splice_inner } => {
            let inner = s.top();
            let t = if splice_inner {
                s.popped().warned(items_warning(inner, f))
            } else {
                s.popped()
            };
            let cs = if splice_inner {
                items_of(inner, f)
            } else {
                seq![inner]
            };
            let (u, fault, out) = each_from(t, cs, 0, Seq::empty(), f);
            match fault {
                Some(e) => (u, Sig::Failed(e)),
                None => (u.value(vector_of(out)), Sig::Running),
            }
        },
        Job::LcForBindings { bindings, at, body, scope } => if at < bindings.len() {
            (
                s.task(Job::LcForStart { bindings, at, body, scope }).task(
                    Job::Eval(bindings[at as int].value, scope),
                ),
                Sig::Running,
            )
        } else {
            (contribution_step(s, body, scope), Sig::Running)
        },
        Job::LcForStart { bindings, at, body, scope } => for_start(s, bindings, at, body, scope, f),
        Job::LcForNext {
            bindings,
            at,
            body,
            var,
            items,
            next,
            frame,
            acc,
            splice_item,
            pending,
        } => (
            for_next(
                s,
                bindings,
                at,
                body,
                var,
                items,
                next,
                frame,
                acc,
                splice_item,
                pending,
                f,
            ),
            Sig::Running,
        ),
        _ => (s.task(j), Sig::Asking),
    }
}

/// A task of a C-style loop.
#[verifier::opaque]
pub open spec fn perform_cycle(s: State, j: Job, f: spec_fn(FloatOp, u64, u64) -> u64) -> (
    State,
    Sig,
) {
    match j {
        Job::CForInit { init, at, scope, state } => {
            let name = bound_name(init[at as int]);
            let t = s.popped().binding(scope, name, s.top());
            (
                cfor_init_next(
                    t,
                    init,
                    at + 1,
                    t.here(),
                    Cycle { vars: state.vars.push((name, s.top())), ..state },
                ),
                Sig::Running,
            )
        },
        Job::LcForCStep(state) => {
            let t = s.child(state.outer);
            let (st, scope) = bind_vars(t.store, t.here(), state.vars, state.vars.len());
            (
                (State { store: st, ..t }).task(Job::CForTest { loop_scope: scope, state }).task(
                    Job::Eval(state.cond, scope),
                ),
                Sig::Running,
            )
        },
        Job::CForTest { loop_scope, state } => if truthy(s.top()) {
            let t = s.popped().task(Job::LcForCUpdate { loop_scope, state });
            if state.splice_item {
                (t.task(Job::LcElem(state.body, loop_scope)), Sig::Running)
            } else {
                (t.task(Job::Eval(state.body, loop_scope)), Sig::Running)
            }
        } else {
            (s.popped().value(vector_of(state.acc)), Sig::Running)
        },
        Job::LcForCUpdate { loop_scope, state } => {
            let (t, got) = collected(s, state.acc, state.splice_item, f);
            cfor_set_next(t, 0, loop_scope, Cycle { acc: got, ..state })
        },
        Job::CForSet { at, loop_scope, state } => {
            let name = bound_name(state.update[at as int]);
            let t = s.popped().binding(loop_scope, name, s.top());
            cfor_set_next(
                t,
                at + 1,
                t.here(),
                Cycle { vars: set_var(state.vars, name, s.top(), 0), ..state },
            )
        },
        _ => (s.task(j), Sig::Asking),
    }
}

/// A task of a `let`.
#[verifier::opaque]
pub open spec fn perform_binding(s: State, j: Job, f: spec_fn(FloatOp, u64, u64) -> u64) -> (
    State,
    Sig,
) {
    match j {
        Job::LetStep { bindings, idx, body, scope } => {
            let (t, inner) = let_bind(s.popped(), bindings, idx as int, s.top(), scope);
            (let_next(t, bindings, idx, body, inner, false), Sig::Running)
        },
        Job::LcLetStep { bindings, idx, body, scope } => {
            let (t, inner) = let_bind(s.popped(), bindings, idx as int, s.top(), scope);
            (let_next(t, bindings, idx, body, inner, true), Sig::Running)
        },
        _ => (s.task(j), Sig::Asking),
    }
}

/// What a task does, once it is taken off the stack and paid for.
pub open spec fn perform(s: State, j: Job, f: spec_fn(FloatOp, u64, u64) -> u64) -> (State, Sig) {
    match j {
        Job::Eval(e, scope) => (node_step(s, e, scope), Sig::Running),
        Job::LcElem(e, scope) => (elem_step(s, e, scope), Sig::Running),
        Job::Const(_) => perform_plain(s, j, f),
        Job::Binary(_) => perform_plain(s, j, f),
        Job::Unary(_) => perform_plain(s, j, f),
        Job::VectorSplice(_) => perform_plain(s, j, f),
        Job::Index => perform_plain(s, j, f),
        Job::Member(_) => perform_plain(s, j, f),
        Job::Range { .. } => perform_plain(s, j, f),
        Job::Ternary { .. } => perform_plain(s, j, f),
        Job::WrapContribution => perform_plain(s, j, f),
        Job::PushUndef => perform_plain(s, j, f),
        Job::ShortCircuit { .. } => perform_plain(s, j, f),
        Job::Apply { .. } => perform_call(s, j, f),
        Job::CallValue { .. } => perform_call(s, j, f),
        Job::Builtin { .. } => perform_call(s, j, f),
        Job::Native { .. } => perform_call(s, j, f),
        Job::CacheStore { .. } => perform_call(s, j, f),
        Job::CallReturn => perform_call(s, j, f),
        Job::EchoEmit { .. } => perform_console(s, j, f),
        Job::AssertCheck { .. } => perform_console(s, j, f),
        Job::AssertVerdict { .. } => perform_console(s, j, f),
        Job::LcIfBranch { .. } => perform_element(s, j, f),
        Job::LcEachSplice { .. } => perform_element(s, j, f),
        Job::LcForBindings { .. } => perform_element(s, j, f),
        Job::LcForStart { .. } => perform_element(s, j, f),
        Job::LcForNext { .. } => perform_element(s, j, f),
        Job::CForInit { .. } => perform_cycle(s, j, f),
        Job::LcForCStep(_) => perform_cycle(s, j, f),
        Job::CForTest { .. } => perform_cycle(s, j, f),
        Job::LcForCUpdate { .. } => perform_cycle(s, j, f),
        Job::CForSet { .. } => perform_cycle(s, j, f),
        Job::LetStep { .. } => perform_binding(s, j, f),
        Job::LcLetStep { .. } => perform_binding(s, j, f),
        _ => (s.task(j), Sig::Asking),
    }
}

/// Whether a task is paid for on its own. A task that only goes on with another one's work is not.
pub open spec fn costs(j: Job) -> bool {
    match j {
        Job::AssertVerdict { .. } => false,
        Job::LcForStart { .. } => false,
        Job::CForInit { .. } => false,
        Job::CForTest { .. } => false,
        Job::CForSet { .. } => false,
        Job::LcLetStep { .. } => false,
        _ => !waits(j),
    }
}

/// Whether a task waits for an answer.
pub open spec fn waits(j: Job) -> bool {
    match j {
        Job::AwaitBuiltin { .. } => true,
        Job::AwaitNative { .. } => true,
        Job::AwaitEcho { .. } => true,
        Job::AwaitAssert { .. } => true,
        Job::AwaitJit(_) => true,
        Job::AwaitMemo(_) => true,
        _ => false,
    }
}

/// One step: the task on top is taken off, paid for and performed. Without tasks the value on top
/// is the result.
#[verifier::opaque]
pub open spec fn step(s: State, f: spec_fn(FloatOp, u64, u64) -> u64) -> (State, Sig) {
    if s.tasks.len() == 0 {
        (s.popped(), Sig::Done(s.top()))
    } else {
        let j = s.tasks.last();
        let t = State { tasks: s.tasks.drop_last(), ..s };
        let (u, fault) = if costs(j) {
            charged(t, 1)
        } else {
            (t, None)
        };
        match fault {
            Some(e) => (u, Sig::Failed(e)),
            None => perform(u, j, f),
        }
    }
}

/// Whether the scopes of a call are places of a store of `n` nodes.
pub open spec fn call_ok(n: nat, c: Entering) -> bool {
    c.base.at < n && c.caller.at < n
}

/// Whether the scopes of a task are places of a store of `n` nodes, and its positions lie inside
/// what they point into.
pub open spec fn job_ok(n: nat, j: Job) -> bool {
    match j {
        Job::Eval(_, scope) => scope.at < n,
        Job::Ternary { scope, .. } => scope.at < n,
        Job::Apply { base, caller, .. } => base.at < n && caller.at < n,
        Job::CallValue { caller, .. } => caller.at < n,
        Job::EchoEmit { scope, .. } => scope.at < n,
        Job::AssertCheck { scope, .. } => scope.at < n,
        Job::AssertVerdict { scope, .. } => scope.at < n,
        Job::LcElem(_, scope) => scope.at < n,
        Job::LcIfBranch { scope, .. } => scope.at < n,
        Job::LcForBindings { scope, .. } => scope.at < n,
        Job::LcForStart { bindings, at, scope, .. } => scope.at < n && at < bindings.len(),
        Job::LcForNext { frame, .. } => frame.at < n,
        Job::CForInit { init, at, scope, state } => scope.at < n && state.outer.at < n && at
            < init.len(),
        Job::LcForCStep(state) => state.outer.at < n,
        Job::CForTest { loop_scope, state } => loop_scope.at < n && state.outer.at < n,
        Job::LcForCUpdate { loop_scope, state } => loop_scope.at < n && state.outer.at < n,
        Job::CForSet { at, loop_scope, state } => loop_scope.at < n && state.outer.at < n && at
            < state.update.len(),
        Job::LetStep { bindings, idx, scope, .. } => scope.at < n && idx < bindings.len(),
        Job::LcLetStep { bindings, idx, scope, .. } => scope.at < n && idx < bindings.len(),
        Job::ShortCircuit { scope, .. } => scope.at < n,
        Job::AwaitEcho { scope, .. } => scope.at < n,
        Job::AwaitJit(c) => call_ok(n, c),
        Job::AwaitMemo(c) => call_ok(n, c),
        _ => true,
    }
}

/// Whether the top-level scopes are places of a store of `n` nodes, and every function has one.
pub open spec fn setup_ok(n: nat, p: Setup) -> bool {
    &&& forall|i: int| 0 <= i < p.globals.len() ==> (#[trigger] p.globals[i]).at < n
    &&& forall|i: int| 0 <= i < p.functions.len() ==> (#[trigger] p.functions[i]).home
        < p.globals.len()
}

/// A state that a run can be in.
pub open spec fn run_ok(s: State) -> bool {
    &&& store_ok(s.store)
    &&& setup_ok(s.store.len(), s.setup)
    &&& forall|i: int| 0 <= i < s.tasks.len() ==> job_ok(s.store.len(), #[trigger] s.tasks[i])
}

/// A task stays in order where the store grows.
pub proof fn lemma_job_stays_ok(n: nat, m: nat, j: Job)
    requires
        job_ok(n, j),
        n <= m,
    ensures
        job_ok(m, j),
{
}

}

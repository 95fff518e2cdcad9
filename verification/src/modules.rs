//! Module calls made by native code: what they resolve to, what they run with, and how the state
//! that a call holds is given back.

use std::rc::Rc;

use vstd::prelude::*;

use crate::ast::{is_special, same_name, special, Name, Stmt};
use crate::bind::grouped;
use crate::capture::after_read;
use crate::chars::{cat3, same};
use crate::eval::{lemma_grown, Ctx};
use crate::hoist::{flat, hoisted_bindings, scope_bindings, stmts_of};
use crate::host::{Answer, Reply};
use crate::islands::{
    collect_module_defs, isles, locals, mod_from, mods, module_found, modules_of, resolve_module,
    uses_ok, Found, Island, Isle, LocalModules, Locals, Mod, ModDef,
};
use crate::machine::{
    known, named_vals, names_of, run_ok, set_var, sibling_value, Job, State, Task,
};
use crate::message::{Error, Fault};
use crate::native::{
    bind_named, bound_vals, fill_slots, filled, givens, lemma_values_scope_keeps_modules,
    values_scope, Given, ValArg,
};
use crate::num::{
    ask, is_whole, mag, negative, to_u64, to_unsigned, unit, unit_ok, whole, zero, FloatOp,
};
use crate::run::{host, host_ok};
use crate::schedule::is_known;
use crate::scope::{meaning, scope_ok, Scope};
use crate::step::{nested_fn_value, set_variable};
use crate::value::{range_numbers, range_nums, siblings, vals, Sibling, SiblingFn, Val, Value};

verus! {

/// How deep compiled modules may nest before the interpreter takes over.
pub const MAX_MODULE_NATIVE_DEPTH: usize = 64;

/// How deep modules may nest at all.
pub const MAX_MODULE_DEPTH: usize = 100_000;

/// The children of a module call. Those of an interpreted call are statements, with the scope and
/// the file they were written in; those of a compiled one are thunks, by their handles, with what
/// their creator ran with.
#[derive(Debug)]
pub enum CallChildren<'a> {
    Stmts { stmts: Vec<&'a Stmt>, assigns: Vec<&'a Stmt>, scope: Scope, island: usize },
    Compiled {
        thunks: Vec<u64>,
        args: Rc<Vec<Value>>,
        children: Rc<CallChildren<'a>>,
        home_island: usize,
        scope: Scope,
    },
}

/// The children of a module call, mathematically.
pub enum Kids {
    Stmts { stmts: Seq<Stmt>, assigns: Seq<Stmt>, scope: Scope, island: usize },
    Compiled {
        thunks: Seq<u64>,
        args: Seq<Val>,
        children: Box<Kids>,
        home_island: usize,
        scope: Scope,
    },
}

/// The mathematical value of some children.
pub open spec fn kids_of(k: CallChildren) -> Kids
    decreases k,
{
    match k {
        CallChildren::Stmts { stmts, assigns, scope, island } => Kids::Stmts {
            stmts: stmts_of(stmts@),
            assigns: stmts_of(assigns@),
            scope,
            island,
        },
        CallChildren::Compiled { thunks, args, children, home_island, scope } => Kids::Compiled {
            thunks: thunks@,
            args: vals(args@),
            children: Box::new(kids_of(*children)),
            home_island,
            scope,
        },
    }
}

impl<'a> View for CallChildren<'a> {
    type V = Kids;

    open spec fn view(&self) -> Kids {
        kids_of(*self)
    }
}

/// How many children there are.
pub open spec fn kid_count(k: Kids) -> nat {
    match k {
        Kids::Stmts { stmts, .. } => stmts.len(),
        Kids::Compiled { thunks, .. } => thunks.len(),
    }
}

/// Whether the scopes of the children are places of a store of `n` nodes, and their files are
/// among `m`.
pub open spec fn kids_ok(n: nat, m: nat, k: Kids) -> bool
    decreases k,
{
    match k {
        Kids::Stmts { scope, island, .. } => scope.at < n && island < m,
        Kids::Compiled { children, home_island, scope, .. } => scope.at < n && home_island < m
            && kids_ok(n, m, *children),
    }
}

impl<'a> CallChildren<'a> {
    /// How many children the call site supplied.
    pub fn count(&self) -> (r: usize)
        ensures
            r == kid_count(self@),
    {
        match self {
            CallChildren::Stmts { stmts, .. } => stmts.len(),
            CallChildren::Compiled { thunks, .. } => thunks.len(),
        }
    }
}

/// What one compiled module call runs with: its parameters, the children of its call site, the
/// scope of the call, the file that its own calls resolve in, its body, and the functions nested
/// in the body once they are registered.
#[derive(Debug)]
pub struct NativeModuleCtx<'a> {
    pub args: Rc<Vec<Value>>,
    pub children: Rc<CallChildren<'a>>,
    pub call_scope: Scope,
    pub home_island: usize,
    pub def_body: Option<&'a Stmt>,
    pub local_fn_group: Option<Option<Rc<Vec<SiblingFn>>>>,
}

/// What one compiled module call runs with, mathematically.
pub struct Activation {
    pub args: Seq<Val>,
    pub children: Kids,
    pub scope: Scope,
    pub home: usize,
    pub body: Option<Stmt>,
    pub group: Option<Option<Seq<Sibling>>>,
}

/// A group, where it is registered and where there is one.
pub open spec fn group_of(g: Option<Option<Rc<Vec<SiblingFn>>>>) -> Option<Option<Seq<Sibling>>> {
    match g {
        None => None,
        Some(None) => Some(None),
        Some(Some(xs)) => Some(Some(siblings(xs@))),
    }
}

/// A body, where there is one.
pub open spec fn body_of(b: Option<&Stmt>) -> Option<Stmt> {
    match b {
        Some(s) => Some(*s),
        None => None,
    }
}

impl<'a> View for NativeModuleCtx<'a> {
    type V = Activation;

    open spec fn view(&self) -> Activation {
        Activation {
            args: vals(self.args@),
            children: self.children@,
            scope: self.call_scope,
            home: self.home_island,
            body: body_of(self.def_body),
            group: group_of(self.local_fn_group),
        }
    }
}

/// Whether what a call runs with fits a run.
pub open spec fn activation_ok(s: State, a: Activation) -> bool {
    &&& a.scope.at < s.store.len()
    &&& a.home < s.setup.globals.len()
    &&& kids_ok(s.store.len(), s.setup.globals.len(), a.children)
}

/// The children that an interpreted module body finds.
#[derive(Debug)]
pub struct ChildrenFrame<'a> {
    pub stmts: Vec<&'a Stmt>,
    pub assigns: Vec<&'a Stmt>,
    pub scope: Scope,
    pub island: usize,
}

/// The children that an interpreted module body finds, mathematically.
pub struct Frame {
    pub stmts: Seq<Stmt>,
    pub assigns: Seq<Stmt>,
    pub scope: Scope,
    pub island: usize,
}

impl<'a> View for ChildrenFrame<'a> {
    type V = Frame;

    open spec fn view(&self) -> Frame {
        Frame {
            stmts: stmts_of(self.stmts@),
            assigns: stmts_of(self.assigns@),
            scope: self.scope,
            island: self.island,
        }
    }
}

/// Some frames, mathematically.
pub open spec fn frames(fs: Seq<ChildrenFrame>) -> Seq<Frame> {
    Seq::new(fs.len(), |i: int| fs[i]@)
}

/// What the module calls of a run share: the files, the modules of enclosing scopes, how deep
/// modules nest and nested at most, how deep compiled ones nest, how many compiled ones have run,
/// how often one was given up for its children, and the children of the interpreted bodies.
#[derive(Debug)]
pub struct Modules<'a> {
    pub islands: Vec<Island<'a>>,
    pub local_modules: Vec<LocalModules<'a>>,
    pub module_depth: usize,
    pub peak_module_depth: usize,
    pub native_depth: usize,
    pub native_runs: u64,
    pub native_child_declines: u64,
    pub children_stack: Vec<ChildrenFrame<'a>>,
}

/// What the module calls of a run share, mathematically.
pub struct Shared {
    pub islands: Seq<Isle>,
    pub locals: Seq<Locals>,
    pub depth: usize,
    pub peak: usize,
    pub native_depth: usize,
    pub runs: u64,
    pub declines: u64,
    pub frames: Seq<Frame>,
}

impl<'a> View for Modules<'a> {
    type V = Shared;

    open spec fn view(&self) -> Shared {
        Shared {
            islands: isles(self.islands@),
            locals: locals(self.local_modules@),
            depth: self.module_depth,
            peak: self.peak_module_depth,
            native_depth: self.native_depth,
            runs: self.native_runs,
            declines: self.native_child_declines,
            frames: frames(self.children_stack@),
        }
    }
}

/// Whether what the module calls share fits a run: every file has a top level, and the scopes of
/// the local modules are there.
pub open spec fn shared_ok(s: State, m: Shared) -> bool {
    &&& uses_ok(m.islands)
    &&& m.islands.len() == s.setup.globals.len()
    &&& forall|i: int| 0 <= i < m.locals.len() ==> (#[trigger] m.locals[i]).scope.at < s.store.len()
}

/// One more of something that is counted as far as it can be.
pub open spec fn counted(n: u64) -> u64 {
    if n == u64::MAX {
        n
    } else {
        (n + 1) as u64
    }
}

/// One level deeper.
pub open spec fn deeper(m: Shared) -> Shared {
    let d = (m.depth + 1) as usize;
    Shared {
        depth: d,
        peak: if d > m.peak {
            d
        } else {
            m.peak
        },
        ..m
    }
}

/// One less, and no less than none.
pub open spec fn one_less(n: usize) -> usize {
    if n > 0 {
        (n - 1) as usize
    } else {
        0
    }
}

/// With a module on the stack of running ones.
pub open spec fn stacked(s: State, name: Seq<char>) -> State {
    State { modules: s.modules.push(name), ..s }
}

/// Without the innermost running module.
pub open spec fn unstacked(s: State) -> State {
    State {
        modules: if s.modules.len() > 0 {
            s.modules.drop_last()
        } else {
            s.modules
        },
        ..s
    }
}

impl<'a> Modules<'a> {
    /// Takes a level of compiled nesting; refuses where none is left.
    pub fn enter_native(&mut self) -> (r: bool)
        ensures
            r == (old(self)@.native_depth < MAX_MODULE_NATIVE_DEPTH),
            final(self)@ == if r {
                (Shared { native_depth: (old(self)@.native_depth + 1) as usize, ..old(self)@ })
            } else {
                old(self)@
            },
            final(self).islands == old(self).islands,
            final(self).local_modules == old(self).local_modules,
    {
        if self.native_depth >= MAX_MODULE_NATIVE_DEPTH {
            false
        } else {
            self.native_depth = self.native_depth + 1;
            true
        }
    }

    /// Gives a level of compiled nesting back.
    pub fn leave_native(&mut self)
        ensures
            final(self)@ == (Shared {
                native_depth: one_less(old(self)@.native_depth),
                ..old(self)@
            }),
    {
        if self.native_depth > 0 {
            self.native_depth = self.native_depth - 1;
        }
    }

    /// Takes a level of nesting, and notes how deep it went at most.
    pub fn enter_module(&mut self)
        requires
            old(self)@.depth < MAX_MODULE_DEPTH,
        ensures
            final(self)@ == deeper(old(self)@),
            final(self).islands == old(self).islands,
            final(self).local_modules == old(self).local_modules,
    {
        let next: usize = self.module_depth + 1;
        self.module_depth = next;
        if next > self.peak_module_depth {
            self.peak_module_depth = next;
        }
    }

    /// Gives a level of nesting back.
    pub fn leave_module(&mut self)
        ensures
            final(self)@ == (Shared { depth: one_less(old(self)@.depth), ..old(self)@ }),
    {
        if self.module_depth > 0 {
            self.module_depth = self.module_depth - 1;
        }
    }

    /// Notes that a compiled module that the interpreter called has run to its end.
    pub fn note_native_run(&mut self)
        ensures
            final(self)@ == (Shared { runs: counted(old(self)@.runs), ..old(self)@ }),
    {
        if self.native_runs < u64::MAX {
            self.native_runs = self.native_runs + 1;
        }
    }
}

/// How many compiled modules have run to their end.
pub fn native_module_runs(m: &Modules) -> (r: u64)
    ensures
        r == m@.runs,
{
    m.native_runs
}

impl<'a> Ctx<'a> {
    fn push_module(&mut self, name: &Name)
        requires
            run_ok(old(self)@),
        ensures
            final(self)@ == stacked(old(self)@, name@),
            run_ok(final(self)@),
    {
        let ghost before = self@;
        self.module_stack.push(name.clone());
        assert(names_of(self.module_stack@) =~= before.modules.push(name@));
        proof {
            lemma_grown(before, self@);
        }
    }

    fn book<F: Fn(FloatOp, u64, u64) -> u64>(&mut self, scope: Scope, children: u64, fpu: &F) -> (r:
        Scope)
        requires
            run_ok(old(self)@),
            scope_ok(old(self)@.store, scope),
            unit_ok(*fpu),
        ensures
            final(self)@ == booked(old(self)@, scope, children as nat, unit(*fpu)),
            r == final(self)@.here(),
            r.at < final(self)@.store.len(),
            run_ok(final(self)@),
    {
        let running: u64 = self.module_stack.len() as u64;
        let running: u64 = if running < u64::MAX {
            running + 1
        } else {
            running
        };
        let count: Name = Rc::new("$children".to_owned());
        let inner: Scope = self.bind_in(
            scope,
            count,
            Value::Num(ask(fpu, FloatOp::FromInt, children, 0)),
        );
        let parents: Name = Rc::new("$parent_modules".to_owned());
        self.bind_in(inner, parents, Value::Num(ask(fpu, FloatOp::FromInt, running, 0)))
    }

    fn pop_module(&mut self)
        requires
            run_ok(old(self)@),
        ensures
            final(self)@ == unstacked(old(self)@),
            run_ok(final(self)@),
    {
        let ghost before = self@;
        let _ = self.module_stack.pop();
        assert(names_of(self.module_stack@) =~= unstacked(before).modules);
        proof {
            lemma_grown(before, self@);
        }
    }
}

/// The arguments of a builtin module: the positional ones, the named ones, and the scope with its
/// `$`-arguments.
#[derive(Debug)]
pub struct BuiltinArgs {
    pub positional: Vec<Value>,
    pub named: Vec<(Name, Value)>,
    pub scope: Scope,
    /// Whether the module combines its children; one that does not renders none.
    pub combines: bool,
}

/// The arguments of a builtin module, mathematically.
pub struct Passed {
    pub positional: Seq<Val>,
    pub named: Seq<(Seq<char>, Val)>,
    pub scope: Scope,
    pub combines: bool,
}

impl View for BuiltinArgs {
    type V = Passed;

    open spec fn view(&self) -> Passed {
        Passed {
            positional: vals(self.positional@),
            named: named_vals(self.named@),
            scope: self.scope,
            combines: self.combines,
        }
    }
}

/// One argument sorted in: a positional one, a `$`-binding, or a named one, where a later value of
/// a name replaces an earlier one.
pub open spec fn passed_one(s: State, p: Passed, g: Given) -> (State, Passed) {
    match g.name {
        None => (s, Passed { positional: p.positional.push(g.value), ..p }),
        Some(name) => if special(name) {
            let t = s.binding(p.scope, name, g.value);
            (t, Passed { scope: t.here(), ..p })
        } else {
            (s, Passed { named: set_var(p.named, name, g.value, 0), ..p })
        },
    }
}

/// The first `n` arguments sorted in.
pub open spec fn passed(s: State, p: Passed, args: Seq<Given>, n: nat) -> (State, Passed)
    decreases n,
{
    if n == 0 {
        (s, p)
    } else {
        let (t, q) = passed(s, p, args, (n - 1) as nat);
        passed_one(t, q, args[n - 1])
    }
}

impl<'a> Ctx<'a> {
    /// Sorts arguments into positional ones, named ones and `$`-bindings in a fresh scope below
    /// `at`.
    pub fn pass_args(&mut self, args: &Vec<ValArg>, at: Scope, combines: bool) -> (r: BuiltinArgs)
        requires
            run_ok(old(self)@),
            scope_ok(old(self)@.store, at),
        ensures
            ({
                let t = old(self)@.child(at);
                let start = Passed {
                    positional: Seq::empty(),
                    named: Seq::empty(),
                    scope: t.here(),
                    combines,
                };
                (final(self)@, r@) == passed(t, start, givens(args@), args@.len())
            }),
            scope_ok(final(self)@.store, r.scope),
            final(self)@.store.len() >= old(self)@.store.len(),
            final(self)@.setup == old(self)@.setup,
            run_ok(final(self)@),
    {
        let ghost s0 = self@;
        let ghost all = givens(args@);
        let fresh: Scope = self.child(at);
        let ghost t = s0.child(at);
        let ghost start = Passed {
            positional: Seq::empty(),
            named: Seq::empty(),
            scope: t.here(),
            combines,
        };
        let mut out = BuiltinArgs {
            positional: Vec::new(),
            named: Vec::new(),
            scope: fresh,
            combines,
        };
        assert(vals(out.positional@) =~= Seq::<Val>::empty());
        assert(named_vals(out.named@) =~= Seq::<(Seq<char>, Val)>::empty());
        let mut i: usize = 0;
        while i < args.len()
            invariant
                i <= args@.len(),
                all == givens(args@),
                run_ok(self@),
                scope_ok(self@.store, out.scope),
                self@.store.len() >= s0.store.len(),
                self@.setup == s0.setup,
                (self@, out@) == passed(t, start, all, i as nat),
            decreases args@.len() - i,
        {
            let arg: &ValArg = &args[i];
            assert(all[i as int] == arg@);
            let ghost before = out@;
            match &arg.name {
                None => {
                    out.positional.push(arg.value.clone());
                    assert(vals(out.positional@) =~= before.positional.push(arg.value@));
                },
                Some(name) => {
                    if is_special(name.as_str()) {
                        out.scope = self.bind_in(out.scope, name.clone(), arg.value.clone());
                    } else {
                        set_variable(&mut out.named, name.clone(), arg.value.clone());
                    }
                },
            }
            i += 1;
        }
        out
    }
}

/// The names that are statements and never builtin modules.
pub open spec fn statement_name(name: Seq<char>) -> bool {
    name == "echo"@ || name == "assert"@ || name == "let"@ || name == "for"@ || name
        == "intersection_for"@ || name == "children"@
}

fn is_statement_name(name: &str) -> (r: bool)
    ensures
        r == statement_name(name@),
{
    same(name, "echo") || same(name, "assert") || same(name, "let") || same(name, "for") || same(
        name,
        "intersection_for",
    ) || same(name, "children")
}

/// What a module call of native code comes to.
#[derive(Debug)]
pub enum Begun<'a> {
    /// A builtin module, with its arguments.
    Builtin(BuiltinArgs),
    /// A compiled module, with what it runs with, and how many local scopes there were before.
    Native(NativeModuleCtx<'a>, usize),
    /// A module body for the interpreter, with its scope and the top level of its file.
    Interpret { body: &'a Stmt, scope: Scope, global: Scope, island: usize },
}

/// What a module call comes to, mathematically.
pub enum Start {
    Builtin(Passed),
    Native(Activation, nat),
    Interpret { body: Stmt, scope: Scope, global: Scope, island: usize },
}

/// What a module call comes to, or why it comes to nothing.
pub open spec fn start_res(r: Result<Begun, Error>) -> Result<Start, Fault> {
    match r {
        Ok(Begun::Builtin(b)) => Ok(Start::Builtin(b@)),
        Ok(Begun::Native(a, mark)) => Ok(Start::Native(a@, mark as nat)),
        Ok(Begun::Interpret { body, scope, global, island }) => Ok(
            Start::Interpret { body: *body, scope, global, island },
        ),
        Err(e) => Err(e@),
    }
}

/// A call of a builtin module.
pub open spec fn builtin_start(
    s: State,
    me: Activation,
    name: Seq<char>,
    args: Seq<Given>,
    combinators: Seq<Seq<char>>,
) -> (State, Result<Start, Fault>) {
    if statement_name(name) {
        (
            s,
            Err(Fault::Unimplemented("a statement-form module name reached compiled dispatch"@)),
        )
    } else {
        let t = s.child(me.scope);
        let start = Passed {
            positional: Seq::empty(),
            named: Seq::empty(),
            scope: t.here(),
            combines: known(combinators, name),
        };
        let (u, p) = passed(t, start, args, args.len());
        (u, Ok(Start::Builtin(p)))
    }
}

/// The children that a compiled callee finds.
pub open spec fn handed(me: Activation, thunks: Option<Seq<u64>>, home: usize) -> Kids {
    match thunks {
        None => Kids::Stmts {
            stmts: Seq::empty(),
            assigns: Seq::empty(),
            scope: me.scope,
            island: home,
        },
        Some(ts) => Kids::Compiled {
            thunks: ts,
            args: me.args,
            children: Box::new(me.children),
            home_island: me.home,
            scope: me.scope,
        },
    }
}

/// How many thunks are handed over.
pub open spec fn thunk_count(thunks: Option<Seq<u64>>) -> nat {
    match thunks {
        Some(ts) => ts.len(),
        None => 0,
    }
}

/// What a call of a module that is defined comes to, once its scope is bound: a compiled run where
/// there is a compiled version and nesting is left, else an interpreted one, which takes no
/// thunks.
pub open spec fn entered_module(
    m: Shared,
    s: State,
    me: Activation,
    name: Seq<char>,
    found: Found,
    scope: Scope,
    global: Scope,
    thunks: Option<Seq<u64>>,
    native: bool,
) -> (Shared, State, Result<Start, Fault>) {
    if native && m.native_depth < MAX_MODULE_NATIVE_DEPTH {
        let d = deeper(Shared { native_depth: (m.native_depth + 1) as usize, ..m });
        let a = Activation {
            args: bound_vals(s, found.def.params, scope),
            children: handed(me, thunks, found.home),
            scope,
            home: found.home,
            body: Some(found.def.body),
            group: None,
        };
        (d, stacked(s, name), Ok(Start::Native(a, m.locals.len())))
    } else if thunk_count(thunks) > 0 {
        (
            Shared { declines: counted(m.declines), ..m },
            s,
            Err(
                Fault::Unimplemented(
                    "a compiled child block handed to an interpreted module (AR.20.7)"@,
                ),
            ),
        )
    } else {
        let d = deeper(m);
        let frame = Frame {
            stmts: Seq::empty(),
            assigns: Seq::empty(),
            scope: me.scope,
            island: found.home,
        };
        (
            Shared { frames: d.frames.push(frame), ..d },
            stacked(s, name),
            Ok(Start::Interpret { body: found.def.body, scope, global, island: found.home }),
        )
    }
}

/// The scope of a module call with what the call itself binds in it: `$children` counts the children,
/// and `$parent_modules` the modules that are running, this one with them, so that
/// `parent_module` names a module for each smaller number.
pub open spec fn booked(
    s: State,
    scope: Scope,
    children: nat,
    f: spec_fn(FloatOp, u64, u64) -> u64,
) -> State {
    let t = s.binding(scope, "$children"@, Val::Num(f(FloatOp::FromInt, children as u64, 0)));
    let running = counted(s.modules.len() as u64);
    t.binding(t.here(), "$parent_modules"@, Val::Num(f(FloatOp::FromInt, running, 0)))
}

/// What a module call of native code comes to: a builtin where the name means no module; a
/// failure where modules nest too deep; else the arguments are bound, `$children` and
/// `$parent_modules` with them, and the module is entered.
pub open spec fn begun(
    m: Shared,
    s: State,
    me: Activation,
    name: Seq<char>,
    args: Seq<Given>,
    thunks: Option<Seq<u64>>,
    native: bool,
    combinators: Seq<Seq<char>>,
    f: spec_fn(FloatOp, u64, u64) -> u64,
    h: spec_fn(Job, u64, Seq<Seq<char>>) -> Answer,
    n: nat,
) -> (Shared, State, Result<Start, Fault>) {
    match module_found(m.islands, m.locals, me.home, name) {
        None => {
            let (t, r) = builtin_start(s, me, name, args, combinators);
            (m, t, r)
        },
        Some(found) => if m.depth >= MAX_MODULE_DEPTH {
            (m, s, Err(Fault::Eval("Recursion detected calling module '"@ + name + "'"@)))
        } else {
            let global = match found.base {
                Some(b) => b,
                None => s.setup.globals[found.home as int],
            };
            let params = found.def.params;
            let (t, r) = values_scope(
                s,
                params,
                filled(params, args, args.len()),
                me.scope,
                global,
                f,
                h,
                n,
            );
            match r {
                Err(e) => (m, t, Err(e)),
                Ok(c) => {
                    let u = booked(t, c, thunk_count(thunks), f);
                    entered_module(m, u, me, name, found, u.here(), global, thunks, native)
                },
            }
        },
    }
}

/// A place of a smaller store is one of a larger store.
pub proof fn lemma_kids_stay(n: nat, m: nat, k: Kids, larger: nat)
    requires
        kids_ok(n, m, k),
        n <= larger,
    ensures
        kids_ok(larger, m, k),
    decreases k,
{
    match k {
        Kids::Compiled { children, .. } => {
            lemma_kids_stay(n, m, *children, larger);
        },
        _ => {},
    }
}

proof fn lemma_local_scope(ls: Seq<Locals>, name: Seq<char>, n: nat, len: nat)
    requires
        n <= ls.len(),
        forall|i: int| 0 <= i < ls.len() ==> (#[trigger] ls[i]).scope.at < len,
    ensures
        crate::islands::local_module(ls, name, n) matches Some((_, sc)) ==> sc.at < len,
    decreases n,
{
    if n > 0 {
        assert(ls[n - 1].scope.at < len);
        lemma_local_scope(ls, name, (n - 1) as nat, len);
    }
}

impl<'a> Modules<'a> {
    fn hand_over(&self, me: &NativeModuleCtx<'a>, thunks: Option<Vec<u64>>, home: usize) -> (r:
        CallChildren<'a>)
        ensures
            r@ == handed(
                me@,
                match thunks {
                    Some(ts) => Some(ts@),
                    None => None,
                },
                home,
            ),
    {
        match thunks {
            None => {
                let none: Vec<&'a Stmt> = Vec::new();
                let also_none: Vec<&'a Stmt> = Vec::new();
                assert(stmts_of(none@) =~= Seq::<Stmt>::empty());
                assert(stmts_of(also_none@) =~= Seq::<Stmt>::empty());
                CallChildren::Stmts {
                    stmts: none,
                    assigns: also_none,
                    scope: me.call_scope,
                    island: home,
                }
            },
            Some(ts) => {
                let r = CallChildren::Compiled {
                    thunks: ts,
                    args: me.args.clone(),
                    children: me.children.clone(),
                    home_island: me.home_island,
                    scope: me.call_scope,
                };
                reveal_with_fuel(kids_of, 2);
                r
            },
        }
    }

    fn push_frame(&mut self, scope: Scope, island: usize)
        ensures
            final(self)@ == (Shared {
                frames: old(self)@.frames.push(
                    Frame { stmts: Seq::empty(), assigns: Seq::empty(), scope, island },
                ),
                ..old(self)@
            }),
            final(self).islands == old(self).islands,
            final(self).local_modules == old(self).local_modules,
    {
        let ghost before = self@.frames;
        let none: Vec<&'a Stmt> = Vec::new();
        let also_none: Vec<&'a Stmt> = Vec::new();
        assert(stmts_of(none@) =~= Seq::<Stmt>::empty());
        assert(stmts_of(also_none@) =~= Seq::<Stmt>::empty());
        let frame = ChildrenFrame { stmts: none, assigns: also_none, scope, island };
        self.children_stack.push(frame);
        assert(frames(self.children_stack@) =~= before.push(frame@));
    }

    fn enter_found(
        &mut self,
        ctx: &mut Ctx<'a>,
        me: &NativeModuleCtx<'a>,
        name: &Name,
        def: ModDef<'a>,
        home: usize,
        Ghost(base): Ghost<Option<Scope>>,
        scope: Scope,
        global: Scope,
        thunks: Option<Vec<u64>>,
        native: bool,
    ) -> (r: Result<Begun<'a>, Error>)
        requires
            run_ok(old(ctx)@),
            scope_ok(old(ctx)@.store, scope),
            old(self)@.depth < MAX_MODULE_DEPTH,
        ensures
            (final(self)@, final(ctx)@, start_res(r)) == entered_module(
                old(self)@,
                old(ctx)@,
                me@,
                name@,
                Found { def: def@, home, base },
                scope,
                global,
                match thunks {
                    Some(ts) => Some(ts@),
                    None => None,
                },
                native,
            ),
            run_ok(final(ctx)@),
    {
        if native && self.enter_native() {
            self.enter_module();
            let args: Vec<Value> = ctx.bound_args(def.params, scope);
            ctx.push_module(name);
            let children: CallChildren<'a> = self.hand_over(me, thunks, home);
            let inner = NativeModuleCtx {
                args: Rc::new(args),
                children: Rc::new(children),
                call_scope: scope,
                home_island: home,
                def_body: Some(def.body),
                local_fn_group: None,
            };
            return Ok(Begun::Native(inner, self.local_modules.len()));
        }
        match &thunks {
            Some(ts) => {
                if ts.len() > 0 {
                    if self.native_child_declines < u64::MAX {
                        self.native_child_declines = self.native_child_declines + 1;
                    }
                    return Err(
                        Error::Unimplemented(
                            "a compiled child block handed to an interpreted module (AR.20.7)".to_owned(),
                        ),
                    );
                }
            },
            None => {},
        }
        self.enter_module();
        ctx.push_module(name);
        self.push_frame(me.call_scope, home);
        Ok(Begun::Interpret { body: def.body, scope, global, island: home })
    }

    /// Begins a module call of native code. `native` says whether a compiled version of what the
    /// name means stands in for it, and `combinators` which builtin modules combine their
    /// children. What was begun ends with [`Modules::end_native`] or [`Modules::end_interpreted`];
    /// a builtin, and a failure, hold nothing. Nothing is said here of arguments that match no
    /// parameter, nor of parameters that the body overwrites: what is to be said of them, and in
    /// which words, is for the host, which has the definition and the arguments.
    pub fn call<F: Fn(FloatOp, u64, u64) -> u64, H: Fn(&Task<'a>, u64, &Vec<Name>) -> Reply>(
        &mut self,
        ctx: &mut Ctx<'a>,
        me: &NativeModuleCtx<'a>,
        name: &Name,
        args: &Vec<ValArg>,
        thunks: Option<Vec<u64>>,
        native: bool,
        combinators: &Vec<Name>,
        fpu: &F,
        h: &H,
        fuel: u64,
    ) -> (r: Result<Begun<'a>, Error>)
        requires
            run_ok(old(ctx)@),
            shared_ok(old(ctx)@, old(self)@),
            activation_ok(old(ctx)@, me@),
            unit_ok(*fpu),
            host_ok(*h),
        ensures
            (final(self)@, final(ctx)@, start_res(r)) == begun(
                old(self)@,
                old(ctx)@,
                me@,
                name@,
                givens(args@),
                match thunks {
                    Some(ts) => Some(ts@),
                    None => None,
                },
                native,
                names_of(combinators@),
                unit(*fpu),
                host(*h),
                fuel as nat,
            ),
            run_ok(final(ctx)@),
            shared_ok(final(ctx)@, final(self)@),
            r matches Ok(Begun::Native(a, _)) ==> activation_ok(final(ctx)@, a@),
    {
        let ghost s0 = ctx@;
        let ghost m0 = self@;
        let (def, home, base) = match resolve_module(
            &self.islands,
            &self.local_modules,
            me.home_island,
            name,
        ) {
            None => {
                return self.call_builtin(ctx, me, name, args, combinators);
            },
            Some(found) => found,
        };
        proof {
            lemma_local_scope(m0.locals, name@, m0.locals.len(), s0.store.len());
        }
        if self.module_depth >= MAX_MODULE_DEPTH {
            return Err(
                Error::Eval(cat3("Recursion detected calling module '", name.as_str(), "'")),
            );
        }
        let global: Scope = match base {
            Some(b) => b,
            None => {
                let g: Scope = ctx.globals[home];
                assert(ctx@.setup.globals[home as int] == g);
                g
            },
        };
        let (slots, extra) = fill_slots(def.params, args);
        let bound: Scope = match ctx.bind_values(
            def.params,
            &slots,
            &extra,
            me.call_scope,
            global,
            fpu,
            h,
            fuel,
        ) {
            Ok(c) => c,
            Err(e) => {
                return Err(e);
            },
        };
        let count: u64 = match &thunks {
            Some(ts) => ts.len() as u64,
            None => 0,
        };
        let scope: Scope = ctx.book(bound, count, fpu);
        let ghost s1 = ctx@;
        let r: Result<Begun<'a>, Error> = self.enter_found(
            ctx,
            me,
            name,
            def,
            home,
            Ghost(base),
            scope,
            global,
            thunks,
            native,
        );
        proof {
            lemma_kids_stay(
                s0.store.len(),
                s0.setup.globals.len(),
                me@.children,
                s1.store.len(),
            );
        }
        r
    }

    fn call_builtin(
        &self,
        ctx: &mut Ctx<'a>,
        me: &NativeModuleCtx<'a>,
        name: &Name,
        args: &Vec<ValArg>,
        combinators: &Vec<Name>,
    ) -> (r: Result<Begun<'a>, Error>)
        requires
            run_ok(old(ctx)@),
            scope_ok(old(ctx)@.store, me@.scope),
        ensures
            (final(ctx)@, start_res(r)) == builtin_start(
                old(ctx)@,
                me@,
                name@,
                givens(args@),
                names_of(combinators@),
            ),
            run_ok(final(ctx)@),
            final(ctx)@.store.len() >= old(ctx)@.store.len(),
            final(ctx)@.setup == old(ctx)@.setup,
            !(r matches Ok(Begun::Native(_, _))),
    {
        if is_statement_name(name.as_str()) {
            return Err(
                Error::Unimplemented(
                    "a statement-form module name reached compiled dispatch".to_owned(),
                ),
            );
        }
        let combines: bool = is_known(combinators, name);
        Ok(Begun::Builtin(ctx.pass_args(args, me.call_scope, combines)))
    }
}

/// After a compiled module: the local modules it registered are gone, and its levels are back.
pub open spec fn native_ended(m: Shared, mark: nat) -> Shared {
    Shared {
        locals: if mark < m.locals.len() {
            m.locals.take(mark as int)
        } else {
            m.locals
        },
        depth: one_less(m.depth),
        native_depth: one_less(m.native_depth),
        ..m
    }
}

/// After an interpreted module body: its children frame is gone, and its level is back.
pub open spec fn interpreted_ended(m: Shared) -> Shared {
    Shared {
        depth: one_less(m.depth),
        frames: if m.frames.len() > 0 {
            m.frames.drop_last()
        } else {
            m.frames
        },
        ..m
    }
}

impl<'a> Modules<'a> {
    /// Ends a compiled module, however it ended.
    pub fn end_native(&mut self, ctx: &mut Ctx<'a>, mark: usize)
        requires
            run_ok(old(ctx)@),
        ensures
            final(self)@ == native_ended(old(self)@, mark as nat),
            final(ctx)@ == unstacked(old(ctx)@),
            run_ok(final(ctx)@),
            shared_ok(old(ctx)@, old(self)@) ==> shared_ok(final(ctx)@, final(self)@),
    {
        let ghost before = self@;
        if mark < self.local_modules.len() {
            self.local_modules.truncate(mark);
            assert(locals(self.local_modules@) =~= before.locals.take(mark as int));
        }
        ctx.pop_module();
        self.leave_module();
        self.leave_native();
    }

    /// Ends an interpreted module body, however it ended.
    pub fn end_interpreted(&mut self, ctx: &mut Ctx<'a>)
        requires
            run_ok(old(ctx)@),
        ensures
            final(self)@ == interpreted_ended(old(self)@),
            final(ctx)@ == unstacked(old(ctx)@),
            run_ok(final(ctx)@),
            shared_ok(old(ctx)@, old(self)@) ==> shared_ok(final(ctx)@, final(self)@),
    {
        let ghost before = self@;
        let _ = self.children_stack.pop();
        assert(frames(self.children_stack@) =~= interpreted_ended(before).frames);
        ctx.pop_module();
        self.leave_module();
    }
}

/// What a module call took is given back when it ends: a run that leaves its own levels as it found
/// them, and adds local modules at most, leaves the nesting, the local modules, the children frames
/// and the running modules as they were before the call. An interpreted body has no local modules of
/// its own to give back: those that are there after it stay.
pub proof fn law_calls_balance(
    m: Shared,
    s: State,
    me: Activation,
    name: Seq<char>,
    args: Seq<Given>,
    thunks: Option<Seq<u64>>,
    native: bool,
    combinators: Seq<Seq<char>>,
    f: spec_fn(FloatOp, u64, u64) -> u64,
    h: spec_fn(Job, u64, Seq<Seq<char>>) -> Answer,
    n: nat,
    later: Shared,
    after: State,
)
    requires
        ({
            let (d, t, r) = begun(m, s, me, name, args, thunks, native, combinators, f, h, n);
            &&& later.depth == d.depth
            &&& later.native_depth == d.native_depth
            &&& later.frames == d.frames
            &&& d.locals.is_prefix_of(later.locals)
            &&& after.modules == t.modules
        }),
    ensures
        ({
            let (d, t, r) = begun(m, s, me, name, args, thunks, native, combinators, f, h, n);
            match r {
                Ok(Start::Native(_, mark)) => {
                    let e = native_ended(later, mark);
                    &&& e.depth == m.depth
                    &&& e.native_depth == m.native_depth
                    &&& e.frames == m.frames
                    &&& e.locals == m.locals
                    &&& t.modules == s.modules.push(name)
                    &&& unstacked(after).modules == s.modules
                },
                Ok(Start::Interpret { .. }) => {
                    let e = interpreted_ended(later);
                    &&& e.depth == m.depth
                    &&& e.native_depth == m.native_depth
                    &&& e.frames == m.frames
                    &&& e.locals == later.locals
                    &&& later.locals == d.locals ==> e.locals == m.locals
                    &&& t.modules == s.modules.push(name)
                    &&& unstacked(after).modules == s.modules
                },
                _ => {
                    &&& d.depth == m.depth
                    &&& d.native_depth == m.native_depth
                    &&& d.frames == m.frames
                    &&& d.locals == m.locals
                    &&& t.modules == s.modules
                },
            }
        }),
{
    let (d, t, r) = begun(m, s, me, name, args, thunks, native, combinators, f, h, n);
    let inner = s.child(me.scope);
    let start = Passed {
        positional: Seq::empty(),
        named: Seq::empty(),
        scope: inner.here(),
        combines: known(combinators, name),
    };
    lemma_passed_keeps_modules(inner, start, args, args.len());
    match module_found(m.islands, m.locals, me.home, name) {
        Some(found) => {
            let global = match found.base {
                Some(b) => b,
                None => s.setup.globals[found.home as int],
            };
            let params = found.def.params;
            lemma_values_scope_keeps_modules(
                s,
                params,
                filled(params, args, args.len()),
                me.scope,
                global,
                f,
                h,
                n,
            );
        },
        None => {},
    }
    match r {
        Ok(Start::Native(_, mark)) => {
            let e = native_ended(later, mark);
            assert(e.locals =~= m.locals);
            assert(t.modules.drop_last() =~= s.modules);
        },
        Ok(Start::Interpret { .. }) => {
            assert(interpreted_ended(later).frames =~= m.frames);
            assert(t.modules.drop_last() =~= s.modules);
        },
        _ => {},
    }
}

proof fn lemma_passed_keeps_modules(s: State, p: Passed, args: Seq<Given>, n: nat)
    ensures
        passed(s, p, args, n).0.modules == s.modules,
    decreases n,
{
    if n > 0 {
        lemma_passed_keeps_modules(s, p, args, (n - 1) as nat);
    }
}

/// The number of compiled modules that have run to their end never falls: beginning a call and ending
/// one, however it ended, leave it as it was, and a run to the end counts one, up to the greatest
/// number. So of two readings the later is no smaller, and it is the same where nothing was noted.
pub proof fn law_native_runs_only_grow(
    m: Shared,
    s: State,
    me: Activation,
    name: Seq<char>,
    args: Seq<Given>,
    thunks: Option<Seq<u64>>,
    native: bool,
    combinators: Seq<Seq<char>>,
    f: spec_fn(FloatOp, u64, u64) -> u64,
    h: spec_fn(Job, u64, Seq<Seq<char>>) -> Answer,
    n: nat,
    mark: nat,
)
    ensures
        begun(m, s, me, name, args, thunks, native, combinators, f, h, n).0.runs == m.runs,
        native_ended(m, mark).runs == m.runs,
        interpreted_ended(m).runs == m.runs,
        counted(m.runs) >= m.runs,
        m.runs < u64::MAX ==> counted(m.runs) == m.runs + 1,
{
}

/// A compiled module is never entered deeper than compiled modules may nest, and no module deeper
/// than modules may nest.
pub proof fn law_nesting_is_bounded(
    m: Shared,
    s: State,
    me: Activation,
    name: Seq<char>,
    args: Seq<Given>,
    thunks: Option<Seq<u64>>,
    native: bool,
    combinators: Seq<Seq<char>>,
    f: spec_fn(FloatOp, u64, u64) -> u64,
    h: spec_fn(Job, u64, Seq<Seq<char>>) -> Answer,
    n: nat,
)
    requires
        m.native_depth <= MAX_MODULE_NATIVE_DEPTH,
        m.depth <= MAX_MODULE_DEPTH,
    ensures
        ({
            let d = begun(m, s, me, name, args, thunks, native, combinators, f, h, n).0;
            d.native_depth <= MAX_MODULE_NATIVE_DEPTH && d.depth <= MAX_MODULE_DEPTH
        }),
{
}

/// The child that a number picks: a whole number that is not negative.
pub open spec fn child_of(b: u64) -> Option<int> {
    if is_whole(b) && (!negative(b) || mag(b) == 0) {
        Some(to_unsigned(b, u64::MAX as int))
    } else {
        None
    }
}

/// The child that a number picks, where it picks one.
pub fn child_at(b: u64) -> (r: Option<u64>)
    ensures
        match r {
            Some(i) => child_of(b) == Some(i as int),
            None => child_of(b) is None,
        },
{
    if whole(b) && (b < crate::num::SIGN || zero(b)) {
        Some(to_u64(b))
    } else {
        None
    }
}

/// The number of children as a number.
pub fn child_count<F: Fn(FloatOp, u64, u64) -> u64>(n: usize, fpu: &F) -> (r: u64)
    requires
        unit_ok(*fpu),
    ensures
        r == unit(*fpu)(FloatOp::FromInt, n as u64, 0),
{
    ask(fpu, FloatOp::FromInt, n as u64, 0)
}

/// The children that the first `k` numbers pick of `n` children, in that order.
pub open spec fn picked(xs: Seq<u64>, k: nat, n: nat) -> Seq<usize>
    decreases k,
{
    if k == 0 {
        Seq::empty()
    } else {
        match child_of(xs[k - 1]) {
            Some(i) => if i < n {
                picked(xs, (k - 1) as nat, n).push(i as usize)
            } else {
                picked(xs, (k - 1) as nat, n)
            },
            None => picked(xs, (k - 1) as nat, n),
        }
    }
}

/// The numbers of a selector: one, those of a list of numbers, or those of a range.
pub open spec fn selector_numbers(v: Val, f: spec_fn(FloatOp, u64, u64) -> u64) -> Seq<u64> {
    match v {
        Val::Num(b) => seq![b],
        Val::NumList(xs) => xs,
        Val::Range { start, step, end } => range_nums(start, step, end, f),
        _ => Seq::empty(),
    }
}

fn pick(xs: &Vec<u64>, n: usize) -> (r: Vec<usize>)
    ensures
        r@ == picked(xs@, xs@.len(), n as nat),
{
    let mut out: Vec<usize> = Vec::new();
    let mut i: usize = 0;
    while i < xs.len()
        invariant
            i <= xs@.len(),
            out@ == picked(xs@, i as nat, n as nat),
        decreases xs@.len() - i,
    {
        match child_at(xs[i]) {
            Some(c) => {
                if c < n as u64 {
                    out.push(c as usize);
                }
            },
            None => {},
        }
        i += 1;
    }
    out
}

/// What is rendered for some children of a call.
#[derive(Debug)]
pub enum Rendering<'a> {
    Nothing,
    /// Statements, in the scope and the file they were written in.
    Stmts { stmts: Vec<&'a Stmt>, scope: Scope, global: Scope, island: usize },
    /// Thunks, run with what their creator ran with.
    Thunks { thunks: Vec<u64>, with: NativeModuleCtx<'a> },
}

/// What is rendered, mathematically.
pub enum Shown {
    Nothing,
    Stmts { stmts: Seq<Stmt>, scope: Scope, global: Scope, island: usize },
    Thunks { thunks: Seq<u64>, with: Activation },
}

impl<'a> View for Rendering<'a> {
    type V = Shown;

    open spec fn view(&self) -> Shown {
        match self {
            Rendering::Nothing => Shown::Nothing,
            Rendering::Stmts { stmts, scope, global, island } => Shown::Stmts {
                stmts: stmts_of(stmts@),
                scope: *scope,
                global: *global,
                island: *island,
            },
            Rendering::Thunks { thunks, with } => Shown::Thunks { thunks: thunks@, with: with@ },
        }
    }
}

/// The elements at the first `n` of some positions; a position past the end gives none.
pub open spec fn at_each<T>(xs: Seq<T>, picks: Seq<usize>, n: nat) -> Seq<T>
    decreases n,
{
    if n == 0 {
        Seq::empty()
    } else if picks[n - 1] < xs.len() {
        at_each(xs, picks, (n - 1) as nat).push(xs[picks[n - 1] as int])
    } else {
        at_each(xs, picks, (n - 1) as nat)
    }
}

/// What is rendered for the picked children of a call: nothing where none is picked; statements
/// with the assignments of their block before them; or thunks. Names keep the meaning they had
/// where the children were written, `$`-names have the one they have where they are rendered.
pub open spec fn rendered(s: State, me: Activation, picks: Seq<usize>) -> (State, Shown) {
    if picks.len() == 0 {
        (s, Shown::Nothing)
    } else {
        match me.children {
            Kids::Stmts { stmts, assigns, scope, island } => {
                let t = s.frame(scope, me.scope);
                (
                    t,
                    Shown::Stmts {
                        stmts: assigns + at_each(stmts, picks, picks.len()),
                        scope: t.here(),
                        global: s.setup.globals[island as int],
                        island,
                    },
                )
            },
            Kids::Compiled { thunks, args, children, home_island, scope } => {
                let t = s.frame(scope, me.scope);
                (
                    t,
                    Shown::Thunks {
                        thunks: at_each(thunks, picks, picks.len()),
                        with: Activation {
                            args,
                            children: *children,
                            scope: t.here(),
                            home: home_island,
                            body: None,
                            group: None,
                        },
                    },
                )
            },
        }
    }
}

/// All positions below `n`.
pub open spec fn every(n: nat) -> Seq<usize> {
    Seq::new(n, |i: int| i as usize)
}

fn stmts_at<'a>(before: &Vec<&'a Stmt>, stmts: &Vec<&'a Stmt>, picks: &Vec<usize>) -> (r: Vec<
    &'a Stmt,
>)
    ensures
        stmts_of(r@) == stmts_of(before@) + at_each(stmts_of(stmts@), picks@, picks@.len()),
{
    let ghost all = stmts_of(stmts@);
    let mut out: Vec<&'a Stmt> = Vec::new();
    let mut i: usize = 0;
    while i < before.len()
        invariant
            i <= before@.len(),
            out@ =~= before@.take(i as int),
        decreases before@.len() - i,
    {
        out.push(before[i]);
        i += 1;
    }
    assert(stmts_of(out@) =~= stmts_of(before@) + at_each(all, picks@, 0));
    let mut k: usize = 0;
    while k < picks.len()
        invariant
            k <= picks@.len(),
            all == stmts_of(stmts@),
            stmts_of(out@) == stmts_of(before@) + at_each(all, picks@, k as nat),
        decreases picks@.len() - k,
    {
        let at: usize = picks[k];
        if at < stmts.len() {
            let ghost was = stmts_of(out@);
            out.push(stmts[at]);
            assert(stmts_of(out@) =~= was.push(all[at as int]));
            assert(was.push(all[at as int]) =~= stmts_of(before@) + at_each(
                all,
                picks@,
                k as nat,
            ).push(all[at as int]));
        }
        k += 1;
    }
    out
}

fn thunks_at(thunks: &Vec<u64>, picks: &Vec<usize>) -> (r: Vec<u64>)
    ensures
        r@ == at_each(thunks@, picks@, picks@.len()),
{
    let mut out: Vec<u64> = Vec::new();
    let mut k: usize = 0;
    while k < picks.len()
        invariant
            k <= picks@.len(),
            out@ == at_each(thunks@, picks@, k as nat),
        decreases picks@.len() - k,
    {
        let at: usize = picks[k];
        if at < thunks.len() {
            out.push(thunks[at]);
        }
        k += 1;
    }
    out
}

impl<'a> NativeModuleCtx<'a> {
    /// What is rendered for the picked children.
    pub fn render(&self, ctx: &mut Ctx<'a>, picks: &Vec<usize>) -> (r: Rendering<'a>)
        requires
            run_ok(old(ctx)@),
            activation_ok(old(ctx)@, self@),
        ensures
            (final(ctx)@, r@) == rendered(old(ctx)@, self@, picks@),
            run_ok(final(ctx)@),
            activation_ok(final(ctx)@, self@),
            r matches Rendering::Thunks { with, .. } ==> activation_ok(final(ctx)@, with@),
    {
        if picks.len() == 0 {
            return Rendering::Nothing;
        }
        let ghost s0 = ctx@;
        match &*self.children {
            CallChildren::Stmts { stmts, assigns, scope, island } => {
                let fresh: Scope = ctx.frame(*scope, self.call_scope);
                let global: Scope = ctx.globals[*island];
                assert(ctx@.setup.globals[*island as int] == global);
                let shown: Vec<&'a Stmt> = stmts_at(assigns, stmts, picks);
                Rendering::Stmts { stmts: shown, scope: fresh, global, island: *island }
            },
            CallChildren::Compiled { thunks, args, children, home_island, scope } => {
                let fresh: Scope = ctx.frame(*scope, self.call_scope);
                proof {
                    reveal_with_fuel(kids_of, 2);
                    reveal_with_fuel(kids_ok, 2);
                    lemma_kids_stay(
                        s0.store.len(),
                        s0.setup.globals.len(),
                        self@.children,
                        ctx@.store.len(),
                    );
                    lemma_kids_stay(
                        s0.store.len(),
                        s0.setup.globals.len(),
                        children@,
                        ctx@.store.len(),
                    );
                }
                Rendering::Thunks {
                    thunks: thunks_at(thunks, picks),
                    with: NativeModuleCtx {
                        args: args.clone(),
                        children: children.clone(),
                        call_scope: fresh,
                        home_island: *home_island,
                        def_body: None,
                        local_fn_group: None,
                    },
                }
            },
        }
    }

    /// The children that a selector picks; what lies outside picks none.
    pub fn indices<F: Fn(FloatOp, u64, u64) -> u64>(&self, selector: &Value, fpu: &F) -> (r: Vec<
        usize,
    >)
        requires
            unit_ok(*fpu),
        ensures
            ({
                let xs = selector_numbers(selector@, unit(*fpu));
                r@ == picked(xs, xs.len(), kid_count(self@.children))
            }),
    {
        let n: usize = self.children.count();
        match selector {
            Value::Num(b) => {
                let mut xs: Vec<u64> = Vec::new();
                xs.push(*b);
                assert(xs@ =~= seq![*b]);
                pick(&xs, n)
            },
            Value::NumList(xs) => pick(xs, n),
            Value::Range { start, step, end } => {
                let xs: Vec<u64> = range_numbers(*start, *step, *end, fpu);
                pick(&xs, n)
            },
            _ => Vec::new(),
        }
    }

    /// What is rendered for the `i`-th child; nothing where there is none.
    pub fn child(&self, ctx: &mut Ctx<'a>, i: usize) -> (r: Rendering<'a>)
        requires
            run_ok(old(ctx)@),
            activation_ok(old(ctx)@, self@),
        ensures
            (final(ctx)@, r@) == if i < kid_count(self@.children) {
                rendered(old(ctx)@, self@, seq![i])
            } else {
                (old(ctx)@, Shown::Nothing)
            },
            run_ok(final(ctx)@),
            activation_ok(final(ctx)@, self@),
    {
        if i >= self.children.count() {
            return Rendering::Nothing;
        }
        let mut one: Vec<usize> = Vec::new();
        one.push(i);
        assert(one@ =~= seq![i]);
        self.render(ctx, &one)
    }

    /// What is rendered for all children.
    pub fn children(&self, ctx: &mut Ctx<'a>) -> (r: Rendering<'a>)
        requires
            run_ok(old(ctx)@),
            activation_ok(old(ctx)@, self@),
        ensures
            (final(ctx)@, r@) == rendered(old(ctx)@, self@, every(kid_count(self@.children))),
            run_ok(final(ctx)@),
            activation_ok(final(ctx)@, self@),
    {
        let n: usize = self.children.count();
        let mut all: Vec<usize> = Vec::new();
        let mut i: usize = 0;
        while i < n
            invariant
                i <= n,
                all@ =~= every(i as nat),
            decreases n - i,
        {
            all.push(i);
            i += 1;
        }
        self.render(ctx, &all)
    }

    /// What a `$`-name means to the call.
    pub fn dollar(&self, ctx: &mut Ctx<'a>, name: &str) -> (r: Value)
        requires
            run_ok(old(ctx)@),
            activation_ok(old(ctx)@, self@),
        ensures
            r@ == match meaning(old(ctx)@.store, self@.scope, name@) {
                Some(v) => v,
                None => Val::Undef,
            },
            final(ctx)@ == (State {
                rec: after_read(old(ctx)@.store, old(ctx)@.rec, self@.scope, name@),
                ..old(ctx)@
            }),
            run_ok(final(ctx)@),
            activation_ok(final(ctx)@, self@),
    {
        let ghost before = ctx@;
        let found: Option<Value> = ctx.captures.read(&ctx.store, self.call_scope, name);
        proof {
            lemma_grown(before, ctx@);
        }
        match found {
            Some(v) => v,
            None => Value::Undef,
        }
    }

    /// Binds a `$`-name for the rest of the call, what it calls and what it renders.
    pub fn set_dollar(&mut self, ctx: &mut Ctx<'a>, name: Name, value: Value)
        requires
            run_ok(old(ctx)@),
            activation_ok(old(ctx)@, old(self)@),
        ensures
            final(ctx)@ == old(ctx)@.binding(old(self)@.scope, name@, value@),
            final(self)@ == (Activation { scope: final(ctx)@.here(), ..old(self)@ }),
            run_ok(final(ctx)@),
            activation_ok(final(ctx)@, final(self)@),
    {
        let ghost s0 = ctx@;
        self.call_scope = ctx.bind_in(self.call_scope, name, value);
        proof {
            lemma_kids_stay(
                s0.store.len(),
                s0.setup.globals.len(),
                self@.children,
                ctx@.store.len(),
            );
        }
    }
}

/// The group of functions that a body registers, where it is not registered yet.
pub open spec fn group_registered(s: State, me: Activation, body: Stmt) -> (
    State,
    Option<Seq<Sibling>>,
) {
    match me.group {
        Some(g) => (s, g),
        None => {
            let its = scope_bindings(seq![body]);
            let (c, g) = grouped(its, its.len(), s.closures);
            (
                State { closures: c, ..s },
                if g.len() > 0 {
                    Some(g)
                } else {
                    None
                },
            )
        },
    }
}

/// The function of a group with a given name.
pub open spec fn sibling_from(g: Seq<Sibling>, name: Seq<char>, i: int) -> Option<Sibling>
    decreases g.len() - i,
{
    if i >= g.len() {
        None
    } else if g[i].name == name {
        Some(g[i])
    } else {
        sibling_from(g, name, i + 1)
    }
}

/// A nested function bound in the scope of its call: its value captures that scope with the given
/// locals in a fresh scope below it, and the whole group.
pub open spec fn fn_registered(
    s: State,
    me: Activation,
    name: Seq<char>,
    frame: Seq<(Seq<char>, Val)>,
) -> (State, Activation, Option<Fault>) {
    match me.body {
        None => (
            s,
            me,
            Some(
                Fault::Unimplemented(
                    "a nested-fn registration with no body AST \u{2014} re-interpreting"@,
                ),
            ),
        ),
        Some(body) => {
            let (t, g) = group_registered(s, me, body);
            let me1 = Activation { group: Some(g), ..me };
            let one = match g {
                Some(xs) => sibling_from(xs, name, 0),
                None => None,
            };
            match one {
                None => (
                    t,
                    me1,
                    Some(
                        Fault::Unimplemented(
                            "a nested fn missing from the resolved body \u{2014} re-interpreting"@,
                        ),
                    ),
                ),
                Some(sib) => {
                    let t1 = t.child(me.scope);
                    let (t2, env) = bind_named(t1, frame, 0, t1.here());
                    let t3 = t2.binding(me.scope, name, sibling_value(sib, env, g));
                    (t3, Activation { scope: t3.here(), ..me1 }, None)
                },
            }
        },
    }
}

/// Whether some names are those of some modules, one for each.
pub open spec fn names_match(ms: Seq<Mod>, names: Seq<Seq<char>>) -> bool {
    ms.len() == names.len() && forall|i: int|
        0 <= i < names.len() ==> mod_from(ms, #[trigger] names[i], 0) is Some
}

/// The modules nested in the body of a call in scope for its calls, with the scope of the call and
/// the given locals in a fresh scope below it.
pub open spec fn modules_registered(
    m: Shared,
    s: State,
    me: Activation,
    names: Seq<Seq<char>>,
    frame: Seq<(Seq<char>, Val)>,
) -> (Shared, State, Option<Fault>) {
    match me.body {
        None => (
            m,
            s,
            Some(
                Fault::Unimplemented(
                    "a local-module registration with no body AST \u{2014} re-interpreting"@,
                ),
            ),
        ),
        Some(body) => {
            let ss = flat(seq![body]);
            let ms = modules_of(ss, ss.len());
            if !names_match(ms, names) {
                (
                    m,
                    s,
                    Some(
                        Fault::Unimplemented(
                            "local-module names diverge from the resolved body \u{2014} re-interpreting"@,
                        ),
                    ),
                )
            } else {
                let t1 = s.child(me.scope);
                let (t2, captured) = bind_named(t1, frame, 0, t1.here());
                (
                    Shared {
                        locals: m.locals.push(Locals { modules: ms, scope: captured }),
                        ..m
                    },
                    t2,
                    None,
                )
            }
        },
    }
}

fn find_sibling(g: &Vec<SiblingFn>, name: &Name) -> (r: Option<usize>)
    ensures
        match r {
            Some(i) => i < g@.len() && sibling_from(siblings(g@), name@, 0) == Some(
                siblings(g@)[i as int],
            ),
            None => sibling_from(siblings(g@), name@, 0) is None,
        },
{
    let ghost all = siblings(g@);
    let mut i: usize = 0;
    while i < g.len()
        invariant
            i <= g@.len(),
            all == siblings(g@),
            sibling_from(all, name@, 0) == sibling_from(all, name@, i as int),
        decreases g@.len() - i,
    {
        if same_name(&g[i].name, name) {
            return Some(i);
        }
        i += 1;
    }
    None
}

fn all_defined<'a>(ms: &Vec<ModDef<'a>>, names: &Vec<Name>) -> (r: bool)
    ensures
        r == names_match(mods(ms@), names_of(names@)),
{
    let ghost all = mods(ms@);
    let ghost ns = names_of(names@);
    if ms.len() != names.len() {
        return false;
    }
    let mut i: usize = 0;
    while i < names.len()
        invariant
            i <= names@.len(),
            all == mods(ms@),
            ns == names_of(names@),
            all.len() == ns.len(),
            forall|k: int| 0 <= k < i ==> mod_from(all, #[trigger] ns[k], 0) is Some,
        decreases names@.len() - i,
    {
        assert(ns[i as int] == names@[i as int]@);
        if crate::islands::find_module(ms, &names[i]).is_none() {
            return false;
        }
        i += 1;
    }
    true
}

/// How a registration ended.
pub open spec fn fault_of(r: Result<(), Error>) -> Option<Fault> {
    match r {
        Ok(_) => None,
        Err(e) => Some(e@),
    }
}

impl<'a> NativeModuleCtx<'a> {
    /// Binds the nested function of a name in the scope of the call. `frame` holds the locals of
    /// the body that come before it.
    pub fn register_local_fn(
        &mut self,
        ctx: &mut Ctx<'a>,
        name: &Name,
        frame: &Vec<(Name, Value)>,
    ) -> (r: Result<(), Error>)
        requires
            run_ok(old(ctx)@),
            activation_ok(old(ctx)@, old(self)@),
        ensures
            (final(ctx)@, final(self)@, fault_of(r)) == fn_registered(
                old(ctx)@,
                old(self)@,
                name@,
                named_vals(frame@),
            ),
            run_ok(final(ctx)@),
            activation_ok(final(ctx)@, final(self)@),
    {
        let ghost s0 = ctx@;
        let body: &'a Stmt = match self.def_body {
            Some(b) => b,
            None => {
                return Err(
                    Error::Unimplemented(
                        "a nested-fn registration with no body AST \u{2014} re-interpreting".to_owned(),
                    ),
                );
            },
        };
        if self.local_fn_group.is_none() {
            let mut one: Vec<&'a Stmt> = Vec::new();
            one.push(body);
            assert(stmts_of(one@) =~= seq![*body]);
            let its = hoisted_bindings(&one);
            assert(crate::hoist::items(its@).len() == its@.len());
            let group: Option<Rc<Vec<SiblingFn>>> = ctx.register_fn_group(&its);
            self.local_fn_group = Some(group);
        }
        let group: Option<Rc<Vec<SiblingFn>>> = match &self.local_fn_group {
            Some(Some(g)) => Some(g.clone()),
            _ => None,
        };
        let found: Option<usize> = match &group {
            Some(g) => find_sibling(g, name),
            None => None,
        };
        match (group, found) {
            (Some(g), Some(i)) => {
                let fresh: Scope = ctx.child(self.call_scope);
                let env: Scope = ctx.bind_all(frame, fresh);
                let sib: &SiblingFn = &g[i];
                let value: Value = nested_fn_value(sib, env, Some(g.clone()));
                self.call_scope = ctx.bind_in(self.call_scope, name.clone(), value);
                proof {
                    lemma_kids_stay(
                        s0.store.len(),
                        s0.setup.globals.len(),
                        self@.children,
                        ctx@.store.len(),
                    );
                }
                Ok(())
            },
            _ => Err(
                Error::Unimplemented(
                    "a nested fn missing from the resolved body \u{2014} re-interpreting".to_owned(),
                ),
            ),
        }
    }

    /// Brings the modules nested in the body into scope for the calls that follow. `frame` holds
    /// the locals of the body.
    pub fn register_local_modules(
        &self,
        m: &mut Modules<'a>,
        ctx: &mut Ctx<'a>,
        names: &Vec<Name>,
        frame: &Vec<(Name, Value)>,
    ) -> (r: Result<(), Error>)
        requires
            run_ok(old(ctx)@),
            shared_ok(old(ctx)@, old(m)@),
            activation_ok(old(ctx)@, self@),
        ensures
            (final(m)@, final(ctx)@, fault_of(r)) == modules_registered(
                old(m)@,
                old(ctx)@,
                self@,
                names_of(names@),
                named_vals(frame@),
            ),
            run_ok(final(ctx)@),
            shared_ok(final(ctx)@, final(m)@),
            activation_ok(final(ctx)@, self@),
    {
        let ghost s0 = ctx@;
        let body: &'a Stmt = match self.def_body {
            Some(b) => b,
            None => {
                return Err(
                    Error::Unimplemented(
                        "a local-module registration with no body AST \u{2014} re-interpreting".to_owned(),
                    ),
                );
            },
        };
        let mut one: Vec<&'a Stmt> = Vec::new();
        one.push(body);
        assert(stmts_of(one@) =~= seq![*body]);
        let store: Vec<ModDef<'a>> = collect_module_defs(&one);
        if !all_defined(&store, names) {
            return Err(
                Error::Unimplemented(
                    "local-module names diverge from the resolved body \u{2014} re-interpreting".to_owned(),
                ),
            );
        }
        let fresh: Scope = ctx.child(self.call_scope);
        let captured: Scope = ctx.bind_all(frame, fresh);
        let ghost before = m@.locals;
        let added = LocalModules { modules: store, scope: captured };
        m.local_modules.push(added);
        assert(locals(m.local_modules@) =~= before.push(added@));
        proof {
            lemma_kids_stay(
                s0.store.len(),
                s0.setup.globals.len(),
                self@.children,
                ctx@.store.len(),
            );
        }
        Ok(())
    }
}

/// A number picks the child that it counts to, from zero on: a whole number that is not below zero. Any other number
/// picks none.
pub proof fn law_numbers_pick_children(b: u64, n: int)
    ensures
        crate::num::counts(b, n) && !negative(b) && n <= u64::MAX ==> child_of(b) == Some(n),
        mag(b) == 0 ==> child_of(b) == Some(0int),
        !is_whole(b) || crate::num::num_lt(b, 0) ==> child_of(b) is None,
{
    crate::num::law_unsigned_in_range(b, u64::MAX as int);
    if mag(b) == 0 {
        assert(crate::num::expo(b) == 0) by {
            assert(0int / 0x10_0000_0000_0000 == 0);
        }
    }
}

/// The children are picked in the order of the numbers; a number that picks none of them is passed over.
pub proof fn law_children_in_order(xs: Seq<u64>, k: nat, n: nat)
    requires
        k <= xs.len(),
        n <= usize::MAX,
    ensures
        k > 0 && (child_of(xs[k - 1]) matches Some(i) && i < n) ==> picked(xs, k, n) == picked(
            xs,
            (k - 1) as nat,
            n,
        ).push(child_of(xs[k - 1])->Some_0 as usize),
        k > 0 && !(child_of(xs[k - 1]) matches Some(i) && i < n) ==> picked(xs, k, n) == picked(xs, (k - 1) as nat, n),
        forall|i: int| 0 <= i < picked(xs, k, n).len() ==> (#[trigger] picked(xs, k, n)[i]) < n,
    decreases k,
{
    if k > 0 {
        law_children_in_order(xs, (k - 1) as nat, n);
        crate::num::law_unsigned_in_range(xs[k - 1], u64::MAX as int);
        let before = picked(xs, (k - 1) as nat, n);
        let now = picked(xs, k, n);
        assert forall|i: int| 0 <= i < now.len() implies (#[trigger] now[i]) < n by {
            if i < before.len() {
                assert(now[i] == before[i]);
            } else {
                assert(now[i] == child_of(xs[k - 1])->Some_0 as usize);
            }
        }
    }
}

/// A selector is a number, the numbers of a vector, or those of a range; anything else selects nothing.
pub proof fn law_selectors(v: Val, f: spec_fn(FloatOp, u64, u64) -> u64)
    ensures
        v matches Val::Num(b) ==> selector_numbers(v, f) == seq![b],
        v matches Val::NumList(xs) ==> selector_numbers(v, f) == xs,
        v matches Val::Range { start, step, end } ==> selector_numbers(v, f) == range_nums(start, step, end, f),
        !(v is Num) && !(v is NumList) && !(v is Range) ==> selector_numbers(v, f).len() == 0,
{
}

/// Without a selector all children are rendered, each once and in their order.
pub proof fn law_all_children<T>(xs: Seq<T>, n: nat)
    requires
        n <= xs.len() <= usize::MAX,
    ensures
        at_each(xs, every(xs.len()), n) == xs.take(n as int),
        n == xs.len() ==> at_each(xs, every(xs.len()), n) == xs,
    decreases n,
{
    if n > 0 {
        law_all_children(xs, (n - 1) as nat);
        assert(every(xs.len())[n - 1] == n - 1);
        assert(xs.take(n as int) =~= xs.take(n - 1).push(xs[n - 1]));
    } else {
        assert(xs.take(0) =~= Seq::empty());
    }
    if n == xs.len() {
        assert(xs.take(n as int) =~= xs);
    }
}

/// What is rendered for picked children are the statements, or the compiled code, of just those, in the order in which
/// they were picked, with the assignments of their block before them; where none is picked it is nothing.
pub proof fn law_picked_children(s: State, me: Activation, picks: Seq<usize>, i: usize)
    ensures
        picks.len() == 0 ==> rendered(s, me, picks) == (s, Shown::Nothing),
        me.children matches Kids::Stmts { stmts, assigns, scope, island } ==> (i < stmts.len() ==> (rendered(
            s,
            me,
            seq![i],
        ).1 matches Shown::Stmts { stmts: shown, island: at, .. } && shown == assigns.push(stmts[i as int]) && at
            == island)),
        me.children matches Kids::Compiled { thunks, args, home_island, .. } ==> (i < thunks.len() ==> (rendered(
            s,
            me,
            seq![i],
        ).1 matches Shown::Thunks { thunks: shown, with } && shown == seq![thunks[i as int]] && with.args == args
            && with.home == home_island)),
{
    let one = seq![i];
    assert(one.len() == 1 && one[0] == i);
    match me.children {
        Kids::Stmts { stmts, assigns, .. } => {
            if i < stmts.len() {
                assert(at_each(stmts, one, 0).len() == 0);
                assert(at_each(stmts, one, 1) =~= seq![stmts[i as int]]);
                assert(assigns + seq![stmts[i as int]] =~= assigns.push(stmts[i as int]));
            }
        },
        Kids::Compiled { thunks, .. } => {
            if i < thunks.len() {
                assert(at_each(thunks, one, 0).len() == 0);
                assert(at_each(thunks, one, 1) =~= seq![thunks[i as int]]);
            }
        },
    }
}

/// The names that a call itself binds: `$children` is the number of its children, and `$parent_modules` one more than
/// the modules that were running; no other name means anything else.
pub proof fn law_calls_book(
    s: State,
    scope: Scope,
    children: nat,
    other: Seq<char>,
    f: spec_fn(FloatOp, u64, u64) -> u64,
)
    requires
        crate::scope::store_ok(s.store),
        scope_ok(s.store, scope),
        s.store.len() + 2 < usize::MAX,
        s.modules.len() < u64::MAX,
    ensures
        ({
            let u = booked(s, scope, children, f);
            let m = |name: Seq<char>| crate::scope::meaning(u.store, u.here(), name);
            &&& m("$children"@) == Some(Val::Num(f(FloatOp::FromInt, children as u64, 0)))
            &&& m("$parent_modules"@) == Some(Val::Num(f(FloatOp::FromInt, (s.modules.len() + 1) as u64, 0)))
            &&& other != "$children"@ && other != "$parent_modules"@ ==> m(other) == crate::scope::meaning(
                s.store,
                scope,
                other,
            )
        }),
{
    reveal_strlit("$children");
    reveal_strlit("$parent_modules");
    assert("$children"@.len() == 9 && "$parent_modules"@.len() == 15);
    let v = Val::Num(f(FloatOp::FromInt, children as u64, 0));
    let t = s.binding(scope, "$children"@, v);
    crate::scope::law_bind_shadows(s.store, scope, "$children"@, v, other);
    let run = Val::Num(f(FloatOp::FromInt, counted(s.modules.len() as u64), 0));
    let u = booked(s, scope, children, f);
    assert(t.store == crate::scope::bound(s.store, scope, "$children"@, v));
    assert(u.store == crate::scope::bound(t.store, t.here(), "$parent_modules"@, run));
    crate::scope::law_growing_keeps_meanings(t.store, u.store, t.here().at as int, "$children"@);
    crate::scope::law_growing_keeps_meanings(t.store, u.store, t.here().at as int, other);
}

/// Arguments are sorted in by how they are given: one without a name goes last among the positional ones, one with a
/// `$`-name is bound in the scope alone, and any other one counts by its name, the last of a name.
pub proof fn law_arguments_are_sorted(s: State, p: Passed, g: Given)
    ensures
        ({
            let (t, q) = passed_one(s, p, g);
            &&& g.name is None ==> q.positional == p.positional.push(g.value) && q.named == p.named && t == s
            &&& g.name matches Some(name) ==> q.positional == p.positional
            &&& g.name matches Some(name) ==> (special(name) ==> q.named == p.named && t == s.binding(
                p.scope,
                name,
                g.value,
            ) && q.scope == t.here())
            &&& g.name matches Some(name) ==> (!special(name) ==> t == s && q.scope == p.scope
                && crate::primitives::named_from(q.named, name, 0) == Some(g.value))
        }),
{
    if let Some(name) = g.name {
        if !special(name) {
            lemma_set_var(p.named, name, g.value, 0);
        }
    }
}

proof fn lemma_set_var(vs: Seq<(Seq<char>, Val)>, name: Seq<char>, v: Val, i: int)
    requires
        0 <= i <= vs.len(),
    ensures
        set_var(vs, name, v, i).len() >= vs.len(),
        forall|k: int| 0 <= k < i ==> #[trigger] set_var(vs, name, v, i)[k] == vs[k],
        crate::primitives::named_from(set_var(vs, name, v, i), name, i) == Some(v),
    decreases vs.len() - i,
{
    if i < vs.len() && vs[i].0 != name {
        lemma_set_var(vs, name, v, i + 1);
        assert(set_var(vs, name, v, i)[i] == vs[i]);
    }
}

/// A call of a module fails once a hundred thousand modules are nested, and says which was called; a compiled one is run
/// as such while fewer than sixty-four of them are.
pub proof fn law_module_limits(
    m: Shared,
    s: State,
    me: Activation,
    name: Seq<char>,
    args: Seq<Given>,
    thunks: Option<Seq<u64>>,
    native: bool,
    combinators: Seq<Seq<char>>,
    found: Found,
    scope: Scope,
    f: spec_fn(FloatOp, u64, u64) -> u64,
    h: spec_fn(Job, u64, Seq<Seq<char>>) -> Answer,
    n: nat,
)
    ensures
        module_found(m.islands, m.locals, me.home, name) is Some && m.depth >= 100_000 ==> begun(
            m,
            s,
            me,
            name,
            args,
            thunks,
            native,
            combinators,
            f,
            h,
            n,
        ) == (m, s, Err::<Start, Fault>(Fault::Eval("Recursion detected calling module '"@ + name + "'"@))),
        native && m.native_depth < 64 ==> (entered_module(m, s, me, name, found, scope, scope, thunks, native).2 matches Ok(
            Start::Native(a, mark),
        ) && a.args == bound_vals(s, found.def.params, scope) && a.scope == scope && a.home == found.home && mark
            == m.locals.len()),
        !native && thunk_count(thunks) == 0 ==> (entered_module(m, s, me, name, found, scope, scope, thunks, native).2 matches Ok(
            Start::Interpret { body, scope: at, island, .. },
        ) && body == found.def.body && at == scope && island == found.home),
        (!native || m.native_depth >= 64) && thunk_count(thunks) > 0 ==> entered_module(
            m,
            s,
            me,
            name,
            found,
            scope,
            scope,
            thunks,
            native,
        ).2 is Err,
{
}

/// A sibling is found by its name, the first of that name; where there is none, none is found.
pub proof fn law_siblings_are_found(g: Seq<Sibling>, name: Seq<char>, i: int)
    requires
        0 <= i < g.len(),
        forall|j: int| 0 <= j < i ==> (#[trigger] g[j]).name != name,
    ensures
        g[i].name == name ==> sibling_from(g, name, 0) == Some(g[i]),
        (forall|j: int| 0 <= j < g.len() ==> (#[trigger] g[j]).name != name) ==> sibling_from(g, name, 0) is None,
{
    lemma_sibling_from(g, name, 0, i);
}

proof fn lemma_sibling_from(g: Seq<Sibling>, name: Seq<char>, k: int, i: int)
    requires
        0 <= k <= g.len(),
        0 <= i < g.len(),
        forall|j: int| 0 <= j < i ==> (#[trigger] g[j]).name != name,
    ensures
        k <= i && g[i].name == name ==> sibling_from(g, name, k) == Some(g[i]),
        (forall|j: int| 0 <= j < g.len() ==> (#[trigger] g[j]).name != name) ==> sibling_from(g, name, k) is None,
    decreases g.len() - k,
{
    if k < g.len() {
        lemma_sibling_from(g, name, k + 1, i);
    }
}

/// A body that defines no function has no group, and one that defines some has them all in it; what is registered once
/// stays registered.
pub proof fn law_groups_of_bodies(s: State, me: Activation, body: Stmt)
    ensures
        ({
            let (t, g) = group_registered(s, me, body);
            let its = scope_bindings(seq![body]);
            &&& me.group matches Some(known) ==> t == s && g == known
            &&& me.group is None && (forall|i: int| 0 <= i < its.len() ==> crate::hoist::shape(#[trigger] its[i]) is None)
                ==> g is None && t.closures == s.closures
            &&& me.group is None ==> (g matches Some(all) ==> all.len() > 0)
            &&& t.store == s.store && t.log == s.log
        }),
{
    let its = scope_bindings(seq![body]);
    if forall|i: int| 0 <= i < its.len() ==> crate::hoist::shape(#[trigger] its[i]) is None {
        lemma_no_group(its, its.len(), s.closures);
    }
}

proof fn lemma_no_group(its: Seq<crate::hoist::Item>, n: nat, closures: Seq<crate::machine::Code>)
    requires
        n <= its.len(),
        forall|i: int| 0 <= i < its.len() ==> crate::hoist::shape(#[trigger] its[i]) is None,
    ensures
        grouped(its, n, closures) == (closures, Seq::<Sibling>::empty()),
    decreases n,
{
    if n > 0 {
        lemma_no_group(its, (n - 1) as nat, closures);
        assert(crate::hoist::shape(its[n - 1]) is None);
    }
}

/// The modules of a body are those that were named where there are as many and each of the names is defined; the names of the
/// modules themselves always do.
pub proof fn law_names_of_modules(ms: Seq<Mod>, names: Seq<Seq<char>>, i: int)
    ensures
        names_match(ms, names) ==> names.len() == ms.len() && (0 <= i < names.len() ==> mod_from(ms, names[i], 0)
            is Some),
        names == Seq::new(ms.len(), |k: int| ms[k].name) ==> names_match(ms, names),
{
    if names == Seq::new(ms.len(), |k: int| ms[k].name) {
        assert forall|k: int| 0 <= k < names.len() implies mod_from(ms, #[trigger] names[k], 0) is Some by {
            lemma_module_is_found(ms, k, 0);
        }
    }
}

proof fn lemma_module_is_found(ms: Seq<Mod>, k: int, j: int)
    requires
        0 <= j <= k < ms.len(),
    ensures
        mod_from(ms, ms[k].name, j) is Some,
    decreases k - j,
{
    if j < k {
        lemma_module_is_found(ms, k, j + 1);
    }
}

}

//! The ways into the evaluator: single expressions, functions of a program, and the `echo` and
//! `assert` statements.

use vstd::prelude::*;

use crate::ast::{Arg, Expr, Name, Parameter, Program, Stmt};
use crate::bind::{constants_from, lemma_eval_grows};
use crate::capture::{CaptureStack, Recorder};
use crate::chars::cat3;
use crate::console::{
    any_too_deep, assert_error, assert_fault, assert_parts, echo_line, echo_text, shown_count,
    split_assert_args, texts_of, too_deep, too_deep_error, too_deep_fault,
};
use crate::eval::{defs, lemma_grown, Config, Ctx};
use crate::hoist::{hoisted_assignments, pairs, scope_assignments};
use crate::host::{Answer, Reply};
use crate::intrinsics::{
    arm_guarded_intrinsics, armed, build_intrinsics, position_of, wired, Natives, Registry,
};
use crate::islands::{function_defs, functions_of, stmt_refs};
use crate::machine::{def_from, names_of, run_ok, Def, FnDef, Job, Setup, State, Task};
use crate::message::{lines, Error, Fault, Line, Message};
use crate::num::{unit, unit_ok, FloatOp};
use crate::run::{ask_host, eval_in, host, host_ok, misfit, res};
use crate::scope::{
    frame_at, fresh_meaning, fresh_store, is_global, law_growing_keeps_meanings,
    law_root_scopes_are_alike, links_ok, meaning, newest, scope_ok, store_ok, Cell, Scope, Store,
};
use crate::value::{truthy, vals, Val, Value};

verus! {

/// The state of a run that has not begun: its stacks, its console and its counters are empty.
pub open spec fn fresh_state(store: Seq<Cell>, setup: Setup) -> State {
    State {
        tasks: Seq::empty(),
        values: Seq::empty(),
        store,
        closures: Seq::empty(),
        log: Seq::empty(),
        steps: 0,
        live_calls: 0,
        impure_reads: 0,
        draws: 0,
        modules: Seq::empty(),
        rec: Recorder { caps: Seq::empty(), suppress: 0 },
        setup,
    }
}

impl<'a> Ctx<'a> {
    /// A run that has not begun.
    pub fn new(
        functions: Vec<FnDef<'a>>,
        builtins: Vec<Name>,
        natives: Vec<Name>,
        globals: Vec<Scope>,
        config: Config,
        store: Store,
    ) -> (r: Ctx<'a>)
        requires
            store_ok(store@),
            forall|i: int| 0 <= i < globals@.len() ==> scope_ok(store@, #[trigger] globals@[i]),
            forall|i: int|
                0 <= i < functions@.len() ==> (#[trigger] functions@[i]).home < globals@.len(),
        ensures
            r@ == fresh_state(
                store@,
                (Setup {
                    functions: defs(functions@),
                    builtins: names_of(builtins@),
                    natives: names_of(natives@),
                    globals: globals@,
                    budget: config.eval_budget,
                    jit: config.jit,
                    memo: config.eval_cache,
                }),
            ),
            run_ok(r@),
    {
        let r = Ctx {
            functions,
            builtins,
            natives,
            globals,
            config,
            tasks: Vec::new(),
            values: Vec::new(),
            store,
            closures: Vec::new(),
            messages: Vec::new(),
            eval_steps: 0,
            live_calls: 0,
            impure_reads: 0,
            draws: 0,
            module_stack: Vec::new(),
            captures: CaptureStack::new(),
        };
        assert forall|i: int| 0 <= i < r@.setup.functions.len() implies (
        #[trigger] r@.setup.functions[i]).home < r@.setup.globals.len() by {
            assert(r@.setup.functions[i] == functions@[i]@);
        }
        assert(r@.tasks =~= Seq::empty());
        assert(r@.values =~= Seq::empty());
        assert(r@.closures =~= Seq::empty());
        assert(r@.log =~= Seq::empty());
        assert(r@.modules =~= Seq::empty());
        r
    }
}

/// A configuration without bounds or aids.
pub fn plain_config() -> (r: Config)
    ensures
        r.eval_budget is None,
        !r.jit,
        !r.eval_cache,
{
    Config { eval_budget: None, jit: false, eval_cache: false }
}

/// Evaluates an expression in a scope of a store, without functions of a program.
pub fn eval_expr<
    'a,
    F: Fn(FloatOp, u64, u64) -> u64,
    H: Fn(&Task<'a>, u64, &Vec<Name>) -> Reply,
>(root: &'a Expr, scope: Scope, store: Store, builtins: Vec<Name>, fpu: &F, h: &H, fuel: u64) -> (r:
    (Result<Value, Error>, Ctx<'a>))
    requires
        unit_ok(*fpu),
        host_ok(*h),
        store_ok(store@),
        scope_ok(store@, scope),
    ensures
        (r.1@, res(r.0)) == eval_in(
            fresh_state(
                store@,
                (Setup {
                    functions: Seq::empty(),
                    builtins: names_of(builtins@),
                    natives: Seq::empty(),
                    globals: Seq::empty(),
                    budget: None,
                    jit: false,
                    memo: false,
                }),
            ),
            *root,
            scope,
            unit(*fpu),
            host(*h),
            fuel as nat,
        ),
        run_ok(r.1@),
{
    let none: Vec<FnDef<'a>> = Vec::new();
    let natives: Vec<Name> = Vec::new();
    let globals: Vec<Scope> = Vec::new();
    assert(defs(none@) =~= Seq::<Def>::empty());
    assert(names_of(natives@) =~= Seq::<Seq<char>>::empty());
    assert(globals@ =~= Seq::<Scope>::empty());
    let mut ctx: Ctx<'a> = Ctx::new(none, builtins, natives, globals, plain_config(), store);
    let r: Result<Value, Error> = ctx.eval_with_ctx(root, scope, fpu, h, fuel);
    (r, ctx)
}

/// The functions and the constants of a program, set up once to be called many times.
#[derive(Debug)]
pub struct FnOracle<'a> {
    pub(crate) ctx: Ctx<'a>,
    pub(crate) global: Scope,
}

/// The state of an oracle.
pub closed spec fn oracle_state(o: FnOracle) -> State {
    o.ctx@
}

/// The scope with the constants of an oracle.
pub closed spec fn oracle_scope(o: FnOracle) -> Scope {
    o.global
}

/// An oracle that can be called.
pub open spec fn oracle_ok(o: FnOracle) -> bool {
    run_ok(oracle_state(o)) && scope_ok(oracle_state(o).store, oracle_scope(o))
}

/// The state in which a program begins: nothing has happened, its functions have the native versions
/// that need no constants, every file starts with one root scope, and the newest scope, where the
/// root file is bound, is another one.
pub open spec fn begun(
    functions: Seq<Def>,
    builtins: Seq<Seq<char>>,
    registry: Natives,
    files: nat,
    config: Config,
    preview: Option<bool>,
) -> State {
    let first = fresh_store(Seq::empty(), preview);
    fresh_state(
        fresh_store(first, preview),
        Setup {
            functions,
            builtins,
            natives: wired(registry, functions, functions.len()),
            globals: Seq::new(files, |i: int| newest(first)),
            budget: config.eval_budget,
            jit: config.jit,
            memo: config.eval_cache,
        },
    )
}

/// Every scope that a program begins with is in a top-level frame and knows the constants and
/// settings that every file starts with, and nothing else; and the run can begin.
pub proof fn law_programs_begin_alike(
    functions: Seq<Def>,
    builtins: Seq<Seq<char>>,
    registry: Natives,
    files: nat,
    config: Config,
    preview: Option<bool>,
    i: int,
    n: Seq<char>,
)
    requires
        0 <= i < files,
        forall|k: int| 0 <= k < functions.len() ==> (#[trigger] functions[k]).home < files,
    ensures
        ({
            let s = begun(functions, builtins, registry, files, config, preview);
            let global = s.setup.globals[i];
            &&& run_ok(s)
            &&& meaning(s.store, s.here(), n) == fresh_meaning(preview, n)
            &&& meaning(s.store, global, n) == fresh_meaning(preview, n)
            &&& is_global(s.store, frame_at(s.store, s.here().at as int) as int)
            &&& is_global(s.store, frame_at(s.store, global.at as int) as int)
            &&& global.at < s.here().at
        }),
{
    let s = begun(functions, builtins, registry, files, config, preview);
    let none = Seq::<Cell>::empty();
    let first = fresh_store(none, preview);
    assert(first.len() <= 10);
    assert(s.store.len() <= 20);
    law_root_scopes_are_alike(none, preview);
    law_root_scopes_are_alike(first, preview);
    let g = newest(first);
    law_growing_keeps_meanings(first, s.store, g.at as int, n);
    assert(s.store[g.at as int] == first[g.at as int]);
    assert(links_ok(first, g.at as int));
    let fr = frame_at(first, g.at as int) as int;
    assert(s.store[fr] == first[fr]);
    assert forall|k: int| 0 <= k < files implies #[trigger] s.setup.globals[k] == g by {}
    assert(s.setup.globals[i] == g);
    assert(meaning(first, g, n) == fresh_meaning(preview, n));
}

/// The state in which the constants of an oracle begin to be bound.
pub open spec fn oracle_start(
    functions: Seq<Def>,
    builtins: Seq<Seq<char>>,
    registry: Natives,
) -> State {
    begun(
        functions,
        builtins,
        registry,
        1,
        Config { eval_budget: None, jit: false, eval_cache: false },
        None,
    )
}

/// The state of an oracle once its constants are bound: native versions with baked constants have
/// joined the others.
pub open spec fn oracle_armed(s: State, registry: Natives) -> State {
    State {
        setup: Setup {
            natives: s.setup.natives + armed(
                registry,
                s.setup.functions,
                s.store,
                s.setup.globals,
                s.setup.functions.len(),
            ),
            ..s.setup
        },
        ..s
    }
}

/// Binds the parameters, from the `i`-th on, to their defaults, evaluated over the constants, or to
/// `undef`.
pub open spec fn bind_rest(
    s: State,
    params: Seq<Parameter>,
    i: int,
    scope: Scope,
    global: Scope,
    f: spec_fn(FloatOp, u64, u64) -> u64,
    h: spec_fn(Job, u64, Seq<Seq<char>>) -> Answer,
    n: nat,
) -> (State, Result<Scope, Fault>)
    decreases params.len() - i,
{
    if i >= params.len() {
        (s, Ok(scope))
    } else {
        let (t, r) = match params[i].default {
            Some(d) => eval_in(s, d, global, f, h, n),
            None => (s, Ok(Val::Undef)),
        };
        match r {
            Err(e) => (t, Err(e)),
            Ok(v) => {
                let u = t.binding(scope, params[i].name@, v);
                bind_rest(u, params, i + 1, u.here(), global, f, h, n)
            },
        }
    }
}

/// The scope of a call by value: the leading parameters are bound to the arguments.
pub open spec fn bind_leading(
    s: State,
    params: Seq<Parameter>,
    args: Seq<Val>,
    i: int,
    scope: Scope,
) -> (State, Scope)
    decreases params.len() - i,
{
    if i >= params.len() || i >= args.len() {
        (s, scope)
    } else {
        let t = s.binding(scope, params[i].name@, args[i]);
        bind_leading(t, params, args, i + 1, t.here())
    }
}

/// A call of a function of an oracle: the parameters that no argument fills are bound first, as in
/// any call, and the arguments over them.
pub open spec fn oracle_call(
    s: State,
    global: Scope,
    name: Seq<char>,
    args: Seq<Val>,
    f: spec_fn(FloatOp, u64, u64) -> u64,
    h: spec_fn(Job, u64, Seq<Seq<char>>) -> Answer,
    n: nat,
) -> (State, Result<Val, Fault>) {
    match def_from(s.setup.functions, name, 0) {
        None => (s, Err(Fault::Unknown("function `"@ + name + "`"@))),
        Some(d) => {
            let (t, r) = bind_rest(s, d.params, args.len() as int, global, global, f, h, n);
            match r {
                Err(e) => (t, Err(e)),
                Ok(rest) => {
                    let (u, scope) = bind_leading(t, d.params, args, 0, rest);
                    eval_in(u, d.body, scope, f, h, n)
                },
            }
        },
    }
}

/// A lenient binding of constants never fails.
proof fn lemma_lenient(
    s: State,
    ps: Seq<(Seq<char>, Expr)>,
    i: int,
    scope: Scope,
    island: Option<usize>,
    f: spec_fn(FloatOp, u64, u64) -> u64,
    h: spec_fn(Job, u64, Seq<Seq<char>>) -> Answer,
    n: nat,
)
    ensures
        constants_from(s, ps, i, scope, island, true, f, h, n).1 is Ok,
    decreases ps.len() - i,
{
    if i < ps.len() {
        let (name, e) = ps[i];
        let (t, r) = eval_in(s, e, scope, f, h, n);
        match r {
            Err(_) => {
                lemma_lenient(t, ps, i + 1, scope, island, f, h, n);
            },
            Ok(v) => {
                let u = t.binding(scope, name, crate::iterate::named_value(v, name));
                lemma_lenient(
                    crate::bind::published(u, island, u.here()),
                    ps,
                    i + 1,
                    u.here(),
                    island,
                    f,
                    h,
                    n,
                );
            },
        }
    }
}

/// A run of a program that has not begun, with its top-level scope.
pub(crate) fn begin<'a>(
    functions: Vec<FnDef<'a>>,
    builtins: Vec<Name>,
    registry: &Registry,
    files: usize,
    config: Config,
    preview: Option<bool>,
) -> (r: (Ctx<'a>, Scope))
    requires
        forall|i: int| 0 <= i < functions@.len() ==> (#[trigger] functions@[i]).home < files,
    ensures
        r.0@ == begun(
            defs(functions@),
            names_of(builtins@),
            registry@,
            files as nat,
            config,
            preview,
        ),
        r.1 == r.0@.here(),
        run_ok(r.0@),
        scope_ok(r.0@.store, r.1),
{
    let natives: Vec<Name> = build_intrinsics(registry, &functions);
    let mut store: Store = Store::new();
    let first: Scope = match preview {
        Some(p) => Scope::new_with_preview(&mut store, p),
        None => Scope::new(&mut store),
    };
    let mut globals: Vec<Scope> = Vec::new();
    let mut i: usize = 0;
    while i < files
        invariant
            i <= files,
            globals@.len() == i,
            forall|k: int| 0 <= k < i ==> #[trigger] globals@[k] == first,
        decreases files - i,
    {
        globals.push(first);
        i += 1;
    }
    assert(globals@ =~= Seq::new(
        files as nat,
        |i: int| newest(fresh_store(Seq::empty(), preview)),
    ));
    let ghost all = defs(functions@);
    assert(all.len() == functions@.len());
    let mut ctx: Ctx<'a> = Ctx::new(functions, builtins, natives, globals, config, store);
    let root: Scope = ctx.fresh_root(preview);
    (ctx, root)
}

impl<'a> FnOracle<'a> {
    /// Sets up the functions and constants of a program. A constant that fails is passed over.
    pub fn new<F: Fn(FloatOp, u64, u64) -> u64, H: Fn(&Task<'a>, u64, &Vec<Name>) -> Reply>(
        functions: Vec<FnDef<'a>>,
        constants: &Vec<(&'a Name, &'a Expr)>,
        builtins: Vec<Name>,
        registry: &Registry,
        fpu: &F,
        h: &H,
        fuel: u64,
    ) -> (r: FnOracle<'a>)
        requires
            unit_ok(*fpu),
            host_ok(*h),
            forall|i: int| 0 <= i < functions@.len() ==> (#[trigger] functions@[i]).home == 0,
        ensures
            oracle_ok(r),
            ({
                let s = oracle_start(defs(functions@), names_of(builtins@), registry@);
                let (t, q) = constants_from(
                    s,
                    pairs(constants@),
                    0,
                    s.here(),
                    Some(0),
                    true,
                    unit(*fpu),
                    host(*h),
                    fuel as nat,
                );
                &&& q == Ok::<Scope, Fault>(oracle_scope(r))
                &&& oracle_state(r) == oracle_armed(t, registry@)
            }),
    {
        let (mut ctx, root) = begin(functions, builtins, registry, 1, plain_config(), None);
        let ghost s = ctx@;
        assert(s == oracle_start(defs(functions@), names_of(builtins@), registry@));
        let global: Scope = match ctx.bind_constants(
            constants,
            root,
            Some(0),
            true,
            fpu,
            h,
            fuel,
        ) {
            Ok(g) => g,
            Err(_) => {
                proof {
                    lemma_lenient(
                        s,
                        pairs(constants@),
                        0,
                        root,
                        Some(0),
                        unit(*fpu),
                        host(*h),
                        fuel as nat,
                    );
                }
                root
            },
        };
        let ghost t = ctx@;
        assert forall|i: int| 0 <= i < ctx.globals@.len() implies scope_ok(
            ctx.store@,
            #[trigger] ctx.globals@[i],
        ) by {
            assert(t.setup.globals[i].at < t.store.len());
        }
        let mut more: Vec<Name> = arm_guarded_intrinsics(
            registry,
            &ctx.functions,
            &ctx.store,
            &ctx.globals,
        );
        let ghost added = more@;
        ctx.natives.append(&mut more);
        proof {
            assert(names_of(ctx.natives@) =~= t.setup.natives + names_of(added));
            assert(defs(ctx.functions@).len() == ctx.functions@.len());
            lemma_natives_free(t, ctx@);
        }
        proof {
            lemma_lenient(
                s,
                pairs(constants@),
                0,
                root,
                Some(0),
                unit(*fpu),
                host(*h),
                fuel as nat,
            );
        }
        FnOracle { ctx, global }
    }

    /// Calls a function over the constants: the leading parameters take the arguments, the others
    /// their defaults.
    pub fn call<F: Fn(FloatOp, u64, u64) -> u64, H: Fn(&Task<'a>, u64, &Vec<Name>) -> Reply>(
        &mut self,
        name: &Name,
        args: &Vec<Value>,
        fpu: &F,
        h: &H,
        fuel: u64,
    ) -> (r: Result<Value, Error>)
        requires
            oracle_ok(*old(self)),
            unit_ok(*fpu),
            host_ok(*h),
        ensures
            (oracle_state(*final(self)), res(r)) == oracle_call(
                oracle_state(*old(self)),
                oracle_scope(*old(self)),
                name@,
                vals(args@),
                unit(*fpu),
                host(*h),
                fuel as nat,
            ),
            oracle_scope(*final(self)) == oracle_scope(*old(self)),
            oracle_ok(*final(self)),
    {
        let at: usize = match position_of(&self.ctx.functions, name) {
            Some(i) => i,
            None => {
                return Err(Error::Unknown(cat3("function `", name.as_str(), "`")));
            },
        };
        let params: &'a Vec<Parameter> = self.ctx.functions[at].params;
        let body: &'a Expr = self.ctx.functions[at].body;
        let ghost s0 = self.ctx@;
        let ghost all = vals(args@);
        let ghost d = self.ctx.functions@[at as int]@;
        assert(def_from(s0.setup.functions, name@, 0) == Some(d));
        let global: Scope = self.global;
        let mut scope: Scope = global;
        let mut j: usize = args.len();
        while j < params.len()
            invariant
                all == vals(args@),
                args@.len() <= j,
                s0 == oracle_state(*old(self)),
                def_from(s0.setup.functions, name@, 0) == Some(d),
                d.params == params@,
                global == old(self).global,
                self.global == global,
                run_ok(self.ctx@),
                unit_ok(*fpu),
                host_ok(*h),
                scope_ok(self.ctx@.store, scope),
                scope_ok(self.ctx@.store, global),
                self.ctx@.store.len() >= s0.store.len(),
                bind_rest(
                    self.ctx@,
                    params@,
                    j as int,
                    scope,
                    global,
                    unit(*fpu),
                    host(*h),
                    fuel as nat,
                ) == bind_rest(
                    s0,
                    params@,
                    args@.len() as int,
                    global,
                    global,
                    unit(*fpu),
                    host(*h),
                    fuel as nat,
                ),
            decreases params@.len() - j,
        {
            let v: Value = match &params[j].default {
                Some(d) => {
                    proof {
                        lemma_eval_grows(
                            self.ctx@,
                            *d,
                            global,
                            unit(*fpu),
                            host(*h),
                            fuel as nat,
                        );
                    }
                    match self.ctx.eval_with_ctx(d, global, fpu, h, fuel) {
                        Ok(v) => v,
                        Err(e) => {
                            return Err(e);
                        },
                    }
                },
                None => Value::Undef,
            };
            scope = self.ctx.bind_in(scope, params[j].name.clone(), v);
            j += 1;
        }
        let ghost s1 = self.ctx@;
        let ghost rest = scope;
        let mut i: usize = 0;
        while i < params.len() && i < args.len()
            invariant
                i <= params@.len(),
                i <= args@.len(),
                all == vals(args@),
                global == old(self).global,
                self.global == global,
                run_ok(self.ctx@),
                scope_ok(self.ctx@.store, scope),
                scope_ok(self.ctx@.store, global),
                self.ctx@.store.len() >= s0.store.len(),
                bind_leading(self.ctx@, params@, all, i as int, scope) == bind_leading(
                    s1,
                    params@,
                    all,
                    0,
                    rest,
                ),
            decreases params@.len() - i,
        {
            assert(all[i as int] == args@[i as int]@);
            scope = self.ctx.bind_in(scope, params[i].name.clone(), args[i].clone());
            i += 1;
        }
        proof {
            lemma_eval_grows(self.ctx@, *body, scope, unit(*fpu), host(*h), fuel as nat);
        }
        self.ctx.eval_with_ctx(body, scope, fpu, h, fuel)
    }

    /// The console lines so far.
    pub fn messages(&self) -> (r: &Vec<Message>)
        ensures
            lines(r@) == oracle_state(*self).log,
    {
        &self.ctx.messages
    }
}

pub(crate) proof fn lemma_natives_free(a: State, b: State)
    requires
        run_ok(a),
        b.store == a.store,
        b.tasks == a.tasks,
        b.setup.globals == a.setup.globals,
        b.setup.functions == a.setup.functions,
    ensures
        run_ok(b),
{
}

/// Calls a function of a program that stands on its own.
pub fn interpret_fn<
    'a,
    F: Fn(FloatOp, u64, u64) -> u64,
    H: Fn(&Task<'a>, u64, &Vec<Name>) -> Reply,
>(
    program: &'a Program,
    name: &Name,
    args: &Vec<Value>,
    builtins: Vec<Name>,
    registry: &Registry,
    fpu: &F,
    h: &H,
    fuel: u64,
) -> (r: Result<Value, Error>)
    requires
        unit_ok(*fpu),
        host_ok(*h),
    ensures
        res(r) == interpreted(
            functions_of(program.stmts@, program.stmts@.len()),
            scope_assignments(program.stmts@),
            names_of(builtins@),
            registry@,
            name@,
            vals(args@),
            unit(*fpu),
            host(*h),
            fuel as nat,
        ),
{
    let all: Vec<&'a Stmt> = stmt_refs(program);
    let functions: Vec<FnDef<'a>> = function_defs(&all);
    let constants: Vec<(&'a Name, &'a Expr)> = hoisted_assignments(&all);
    let mut oracle: FnOracle<'a> = FnOracle::new(
        functions,
        &constants,
        builtins,
        registry,
        fpu,
        h,
        fuel,
    );
    oracle.call(name, args, fpu, h, fuel)
}

/// What a function of a program gives, once its constants are bound.
pub open spec fn interpreted(
    functions: Seq<Def>,
    constants: Seq<(Seq<char>, Expr)>,
    builtins: Seq<Seq<char>>,
    registry: Natives,
    name: Seq<char>,
    args: Seq<Val>,
    f: spec_fn(FloatOp, u64, u64) -> u64,
    h: spec_fn(Job, u64, Seq<Seq<char>>) -> Answer,
    n: nat,
) -> Result<Val, Fault> {
    let s = oracle_start(functions, builtins, registry);
    let (t, q) = constants_from(s, constants, 0, s.here(), Some(0), true, f, h, n);
    match q {
        Ok(global) => oracle_call(oracle_armed(t, registry), global, name, args, f, h, n).1,
        Err(e) => Err(e),
    }
}

/// Evaluates the arguments from the `i`-th on.
pub open spec fn args_from(
    s: State,
    args: Seq<Arg>,
    i: int,
    scope: Scope,
    acc: Seq<Val>,
    f: spec_fn(FloatOp, u64, u64) -> u64,
    h: spec_fn(Job, u64, Seq<Seq<char>>) -> Answer,
    n: nat,
) -> (State, Result<Seq<Val>, Fault>)
    decreases args.len() - i,
{
    if i >= args.len() {
        (s, Ok(acc))
    } else {
        let (t, r) = eval_in(s, args[i].value, scope, f, h, n);
        match r {
            Ok(v) => args_from(t, args, i + 1, scope, acc.push(v), f, h, n),
            Err(e) => (t, Err(e)),
        }
    }
}

/// An `echo` statement.
pub open spec fn echo_spec(
    s: State,
    args: Seq<Arg>,
    scope: Scope,
    f: spec_fn(FloatOp, u64, u64) -> u64,
    h: spec_fn(Job, u64, Seq<Seq<char>>) -> Answer,
    n: nat,
) -> (State, Result<(), Fault>) {
    let (t, r) = args_from(s, args, 0, scope, Seq::empty(), f, h, n);
    match r {
        Err(e) => (t, Err(e)),
        Ok(vs) => if too_deep(vs) {
            (t, Err(too_deep_fault()))
        } else {
            match h(Job::AwaitEcho { args, body: None, scope, vals: vs }, t.draws, t.modules) {
                Answer::Texts(ts) => (
                    t.say(Line::Echo(echo_text(args, ts, shown_count(args, ts)))),
                    Ok(()),
                ),
                _ => (t, Err(misfit())),
            }
        },
    }
}

/// The text of the message of a failed assertion: a string as it is, any other value as the host
/// shows it.
pub open spec fn message_text(
    t: State,
    v: Val,
    shown: Seq<char>,
    h: spec_fn(Job, u64, Seq<Seq<char>>) -> Answer,
) -> Option<Seq<char>> {
    match v {
        Val::Str(m) => Some(m),
        other => match h(Job::AwaitAssert { value: other, shown }, t.draws, t.modules) {
            Answer::Texts(ts) => if ts.len() > 0 {
                Some(ts[0])
            } else {
                None
            },
            _ => None,
        },
    }
}

/// An `assert` statement. The message is evaluated even where the assertion holds; that it looked
/// at the running modules does not count.
pub open spec fn assert_spec(
    s: State,
    args: Seq<Arg>,
    shown: Seq<char>,
    scope: Scope,
    f: spec_fn(FloatOp, u64, u64) -> u64,
    h: spec_fn(Job, u64, Seq<Seq<char>>) -> Answer,
    n: nat,
) -> (State, Result<(), Fault>) {
    let parts = assert_parts(args, args.len());
    let (t, c) = match parts.cond {
        Some(e) => eval_in(s, e, scope, f, h, n),
        None => (s, Ok(Val::Bool(false))),
    };
    match c {
        Err(e) => (t, Err(e)),
        Ok(cond) => {
            let passed = truthy(cond);
            match parts.msg {
                None => (
                    t,
                    if passed {
                        Ok(())
                    } else {
                        Err(assert_fault(None, shown))
                    },
                ),
                Some(e) => {
                    let (u, m) = eval_in(t, e, scope, f, h, n);
                    match m {
                        Err(e) => (u, Err(e)),
                        Ok(v) => {
                            let w = State { impure_reads: t.impure_reads, ..u };
                            (
                                w,
                                if passed {
                                    Ok(())
                                } else {
                                    match message_text(w, v, shown, h) {
                                        Some(text) => Err(assert_fault(Some(text), shown)),
                                        None => Err(misfit()),
                                    }
                                },
                            )
                        },
                    }
                },
            }
        },
    }
}

/// An outcome without a value, mathematically.
pub open spec fn unit_res(r: Result<(), Error>) -> Result<(), Fault> {
    match r {
        Ok(_) => Ok(()),
        Err(e) => Err(e@),
    }
}

fn misfit_error() -> (r: Error)
    ensures
        r@ == misfit(),
{
    Error::Eval("the answer does not fit the request".to_owned())
}

impl<'a> Ctx<'a> {
    fn eval_args<F: Fn(FloatOp, u64, u64) -> u64, H: Fn(&Task<'a>, u64, &Vec<Name>) -> Reply>(
        &mut self,
        args: &'a Vec<Arg>,
        scope: Scope,
        fpu: &F,
        h: &H,
        fuel: u64,
    ) -> (r: Result<Vec<Value>, Error>)
        requires
            run_ok(old(self)@),
            unit_ok(*fpu),
            host_ok(*h),
            scope_ok(old(self)@.store, scope),
        ensures
            ({
                let (t, q) = args_from(
                    old(self)@,
                    args@,
                    0,
                    scope,
                    Seq::empty(),
                    unit(*fpu),
                    host(*h),
                    fuel as nat,
                );
                &&& final(self)@ == t
                &&& match r {
                    Ok(vs) => q == Ok::<Seq<Val>, Fault>(vals(vs@)),
                    Err(e) => q == Err::<Seq<Val>, Fault>(e@),
                }
            }),
            scope_ok(final(self)@.store, scope),
            run_ok(final(self)@),
    {
        let ghost s0 = self@;
        let mut out: Vec<Value> = Vec::new();
        assert(vals(out@) =~= Seq::<Val>::empty());
        let mut i: usize = 0;
        while i < args.len()
            invariant
                i <= args@.len(),
                s0 == old(self)@,
                run_ok(self@),
                unit_ok(*fpu),
                host_ok(*h),
                scope_ok(self@.store, scope),
                args_from(
                    self@,
                    args@,
                    i as int,
                    scope,
                    vals(out@),
                    unit(*fpu),
                    host(*h),
                    fuel as nat,
                ) == args_from(
                    s0,
                    args@,
                    0,
                    scope,
                    Seq::empty(),
                    unit(*fpu),
                    host(*h),
                    fuel as nat,
                ),
            decreases args@.len() - i,
        {
            proof {
                lemma_eval_grows(
                    self@,
                    args@[i as int].value,
                    scope,
                    unit(*fpu),
                    host(*h),
                    fuel as nat,
                );
            }
            let ghost before = vals(out@);
            let ghost here = self@;
            match self.eval_with_ctx(&args[i].value, scope, fpu, h, fuel) {
                Ok(v) => {
                    out.push(v);
                    assert(vals(out@) =~= before.push(v@));
                    assert(args_from(
                        here,
                        args@,
                        i as int,
                        scope,
                        before,
                        unit(*fpu),
                        host(*h),
                        fuel as nat,
                    ) == args_from(
                        self@,
                        args@,
                        i + 1,
                        scope,
                        vals(out@),
                        unit(*fpu),
                        host(*h),
                        fuel as nat,
                    ));
                },
                Err(e) => {
                    return Err(e);
                },
            }
            i += 1;
        }
        Ok(out)
    }

    /// An `echo` statement: evaluates its arguments and puts their line on the console.
    pub fn emit_echo<F: Fn(FloatOp, u64, u64) -> u64, H: Fn(&Task<'a>, u64, &Vec<Name>) -> Reply>(
        &mut self,
        args: &'a Vec<Arg>,
        scope: Scope,
        fpu: &F,
        h: &H,
        fuel: u64,
    ) -> (r: Result<(), Error>)
        requires
            run_ok(old(self)@),
            unit_ok(*fpu),
            host_ok(*h),
            scope_ok(old(self)@.store, scope),
        ensures
            (final(self)@, unit_res(r)) == echo_spec(
                old(self)@,
                args@,
                scope,
                unit(*fpu),
                host(*h),
                fuel as nat,
            ),
            run_ok(final(self)@),
    {
        let vs: Vec<Value> = match self.eval_args(args, scope, fpu, h, fuel) {
            Ok(vs) => vs,
            Err(e) => {
                return Err(e);
            },
        };
        if any_too_deep(&vs) {
            return Err(too_deep_error());
        }
        let ask: Task<'a> = Task::AwaitEcho { args, body: None, scope, vals: vs };
        match ask_host(h, &ask, self.draws, &self.module_stack) {
            Reply::Texts(ts) => {
                self.say(Message::Echo(echo_line(args, &ts)));
                Ok(())
            },
            _ => Err(misfit_error()),
        }
    }

    /// An `assert` statement: fails unless its condition holds. `shown` is the printed form of the
    /// condition.
    pub fn check_assert<
        F: Fn(FloatOp, u64, u64) -> u64,
        H: Fn(&Task<'a>, u64, &Vec<Name>) -> Reply,
    >(
        &mut self,
        args: &'a Vec<Arg>,
        shown: &'a Name,
        scope: Scope,
        fpu: &F,
        h: &H,
        fuel: u64,
    ) -> (r: Result<(), Error>)
        requires
            run_ok(old(self)@),
            unit_ok(*fpu),
            host_ok(*h),
            scope_ok(old(self)@.store, scope),
        ensures
            (final(self)@, unit_res(r)) == assert_spec(
                old(self)@,
                args@,
                shown@,
                scope,
                unit(*fpu),
                host(*h),
                fuel as nat,
            ),
            run_ok(final(self)@),
    {
        let (cond, msg) = split_assert_args(args);
        let passed: bool = match cond {
            Some(e) => {
                proof {
                    lemma_eval_grows(self@, *e, scope, unit(*fpu), host(*h), fuel as nat);
                }
                match self.eval_with_ctx(e, scope, fpu, h, fuel) {
                    Ok(v) => v.is_truthy(),
                    Err(e) => {
                        return Err(e);
                    },
                }
            },
            None => false,
        };
        let m: &'a Expr = match msg {
            None => {
                return if passed {
                    Ok(())
                } else {
                    Err(assert_error(None, shown.as_str()))
                };
            },
            Some(m) => m,
        };
        let impure_before: u64 = self.impure_reads;
        let v: Value = match self.eval_with_ctx(m, scope, fpu, h, fuel) {
            Ok(v) => v,
            Err(e) => {
                return Err(e);
            },
        };
        let ghost before = self@;
        self.impure_reads = impure_before;
        proof {
            lemma_grown(before, self@);
        }
        if passed {
            return Ok(());
        }
        match v {
            Value::Str(t) => Err(assert_error(Some(t.as_str()), shown.as_str())),
            other => {
                let ask: Task<'a> = Task::AwaitAssert { value: other, shown };
                match ask_host(h, &ask, self.draws, &self.module_stack) {
                    Reply::Texts(ts) => {
                        if ts.len() > 0 {
                            assert(texts_of(ts@)[0] == ts@[0]@);
                            Err(assert_error(Some(ts[0].as_str()), shown.as_str()))
                        } else {
                            Err(misfit_error())
                        }
                    },
                    _ => Err(misfit_error()),
                }
            },
        }
    }
}

/// An assertion holds exactly where its condition does: what came of the condition decides, a failure of the condition or
/// of the message is the failure, and no condition is a false one.
pub proof fn law_assertions_hold(
    s: State,
    args: Seq<Arg>,
    shown: Seq<char>,
    scope: Scope,
    f: spec_fn(FloatOp, u64, u64) -> u64,
    h: spec_fn(Job, u64, Seq<Seq<char>>) -> Answer,
    n: nat,
)
    ensures
        ({
            let parts = assert_parts(args, args.len());
            let (t, r) = assert_spec(s, args, shown, scope, f, h, n);
            &&& parts.cond is None ==> r is Err
            &&& parts.cond matches Some(e) ==> match eval_in(s, e, scope, f, h, n) {
                (_, Err(x)) => r == Err::<(), Fault>(x),
                (u, Ok(v)) => {
                    &&& r is Ok ==> truthy(v)
                    &&& parts.msg is None ==> (r is Ok <==> truthy(v)) && t == u
                    &&& parts.msg matches Some(m) ==> match eval_in(u, m, scope, f, h, n) {
                        (_, Err(x)) => r == Err::<(), Fault>(x),
                        (w, Ok(text)) => {
                            &&& truthy(v) ==> r is Ok
                            &&& text matches Val::Str(c) ==> (!truthy(v) ==> r == Err::<(), Fault>(
                                Fault::Assert("assertion failed: "@ + c + " [assert("@ + shown + ")]"@),
                            ))
                            &&& t.log == w.log
                        },
                    }
                },
            }
        }),
{
}

/// An echo evaluates its arguments in order and then says one line; an argument that fails is the failure, and nothing is
/// said.
pub proof fn law_echoes_say_one_line(
    s: State,
    args: Seq<Arg>,
    scope: Scope,
    f: spec_fn(FloatOp, u64, u64) -> u64,
    h: spec_fn(Job, u64, Seq<Seq<char>>) -> Answer,
    n: nat,
)
    ensures
        ({
            let (t, r) = echo_spec(s, args, scope, f, h, n);
            let (u, vs) = args_from(s, args, 0, scope, Seq::empty(), f, h, n);
            &&& vs matches Err(x) ==> r == Err::<(), Fault>(x) && t == u
            &&& vs matches Ok(all) ==> all.len() == args.len()
            &&& r is Ok ==> vs is Ok && t.log.len() == u.log.len() + 1 && t.log.last() is Echo && t.log.drop_last()
                == u.log
            &&& r is Err ==> t == u
        }),
{
    law_arguments_evaluate_in_order(s, args, 0, scope, Seq::empty(), f, h, n);
    let (t, r) = echo_spec(s, args, scope, f, h, n);
    let (u, vs) = args_from(s, args, 0, scope, Seq::empty(), f, h, n);
    if r is Ok {
        assert(t.log.drop_last() =~= u.log);
    }
}

/// Arguments are evaluated from the first to the last, each after the one before it, and what they give stands in their
/// order behind what is already there.
pub proof fn law_arguments_evaluate_in_order(
    s: State,
    args: Seq<Arg>,
    i: int,
    scope: Scope,
    acc: Seq<Val>,
    f: spec_fn(FloatOp, u64, u64) -> u64,
    h: spec_fn(Job, u64, Seq<Seq<char>>) -> Answer,
    n: nat,
)
    requires
        0 <= i <= args.len(),
    ensures
        args_from(s, args, i, scope, acc, f, h, n).1 matches Ok(vs) ==> {
            &&& vs.len() == acc.len() + args.len() - i
            &&& acc =~= vs.take(acc.len() as int)
            &&& i < args.len() ==> eval_in(s, args[i].value, scope, f, h, n).1 == Ok::<Val, Fault>(vs[acc.len() as int])
        },
        i < args.len() ==> match eval_in(s, args[i].value, scope, f, h, n) {
            (t, Err(x)) => args_from(s, args, i, scope, acc, f, h, n) == (t, Err::<Seq<Val>, Fault>(x)),
            (t, Ok(v)) => args_from(s, args, i, scope, acc, f, h, n) == args_from(
                t,
                args,
                i + 1,
                scope,
                acc.push(v),
                f,
                h,
                n,
            ),
        },
    decreases args.len() - i,
{
    if i < args.len() {
        let (t, r) = eval_in(s, args[i].value, scope, f, h, n);
        match r {
            Err(_) => {},
            Ok(v) => {
                law_arguments_evaluate_in_order(t, args, i + 1, scope, acc.push(v), f, h, n);
                match args_from(s, args, i, scope, acc, f, h, n).1 {
                    Ok(vs) => {
                        assert(acc.push(v) =~= vs.take(acc.len() as int + 1));
                        assert(vs[acc.len() as int] == acc.push(v)[acc.len() as int]);
                        assert forall|j: int| 0 <= j < acc.len() implies acc[j] == vs[j] by {
                            assert(acc.push(v)[j] == vs.take(acc.len() as int + 1)[j]);
                        }
                    },
                    Err(_) => {},
                }
            },
        }
    }
}

}

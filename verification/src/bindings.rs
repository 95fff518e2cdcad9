//! Laws of what names mean inside calls and `let`s, where a call takes its values from, and when a run is stopped.

use vstd::prelude::*;

use crate::ast::{special, Arg, Expr, Parameter};
use crate::bind::{arguments_from, constants_from, defaults_from, extras_from, hoist_from};
use crate::calls::{default_counts, Matched};
use crate::entry::{bind_leading, oracle_call};
use crate::hoist::{item_name, shape, Item};
use crate::host::Answer;
use crate::iterate::{generates, named_value};
use crate::machine::{
    assembled, bind_group, bind_where, bound_before, bound_name, call_scope, call_width,
    callee_base, cfor_set_next, charged, enter, let_bind, sibling_value, source, Cycle, Entering,
    Job, Sig, State,
};
use crate::message::{Fault, Line};
use crate::num::FloatOp;
use crate::run::eval_in;
use crate::scope::{
    bound, bound_cell, call_cell, child_cell, law_bind_shadows, law_call_frame_splits, law_child_falls_through,
    lemma_push_ok, links_ok, meaning, newest, scope_ok, store_ok, Cell, Scope,
};
use crate::value::{Sibling, Val};

verus! {

/// Binding a name keeps a store in order, and the new scope is one of its places.
proof fn lemma_bound_ok(st: Seq<Cell>, s: Scope, name: Seq<char>, v: Val)
    requires
        store_ok(st),
        scope_ok(st, s),
        st.len() < usize::MAX,
    ensures
        store_ok(bound(st, s, name, v)),
        scope_ok(bound(st, s, name, v), newest(bound(st, s, name, v))),
        bound(st, s, name, v).len() == st.len() + 1,
{
    assert(links_ok(st, s.at as int));
    lemma_push_ok(st, bound_cell(st, s, name, v));
}

/// Whether the `i`-th name of a call is the last one of its name and origin.
pub open spec fn last_of(c: Entering, i: int, n: nat) -> bool {
    forall|j: int|
        i < j < n && (#[trigger] c.names[j]) == c.names[i] ==> c.provided[j] != c.provided[i]
}

/// Whether no name of a call with an origin is a given one.
pub open spec fn none_of(c: Entering, name: Seq<char>, want: bool, n: nat) -> bool {
    forall|j: int| 0 <= j < n && (#[trigger] c.names[j]) == name ==> c.provided[j] != want
}

proof fn lemma_where(st: Seq<Cell>, s: Scope, c: Entering, want: bool, n: nat, name: Seq<char>)
    requires
        store_ok(st),
        scope_ok(st, s),
        st.len() + n < usize::MAX,
    ensures
        ({
            let (t, u) = bind_where(st, s, c, want, n);
            &&& store_ok(t)
            &&& scope_ok(t, u)
            &&& t.len() <= st.len() + n
            &&& none_of(c, name, want, n) ==> meaning(t, u, name) == meaning(st, s, name)
            &&& forall|i: int|
                0 <= i < n && (#[trigger] c.names[i]) == name && c.provided[i] == want && last_of(c, i, n) ==> meaning(
                    t,
                    u,
                    name,
                ) == Some(c.vals[i])
        }),
    decreases n,
{
    if n > 0 {
        let m = (n - 1) as nat;
        lemma_where(st, s, c, want, m, name);
        let (t, u) = bind_where(st, s, c, want, m);
        if c.provided[n - 1] == want {
            lemma_bound_ok(t, u, c.names[n - 1], c.vals[n - 1]);
            law_bind_shadows(t, u, c.names[n - 1], c.vals[n - 1], name);
        }
        let (t2, u2) = bind_where(st, s, c, want, n);
        assert(none_of(c, name, want, n) ==> c.names[n - 1] != name || c.provided[n - 1] != want);
        assert(none_of(c, name, want, n) ==> none_of(c, name, want, m));
        assert forall|i: int|
            0 <= i < n && (#[trigger] c.names[i]) == name && c.provided[i] == want && last_of(c, i, n) implies meaning(
            t2,
            u2,
            name,
        ) == Some(c.vals[i]) by {
            if i < n - 1 {
                assert(last_of(c, i, m));
                if c.provided[n - 1] == want {
                    assert(c.names[n - 1] != c.names[i]);
                }
            }
        }
    }
}

/// Inside a call a name that an argument gives means that argument, whatever its default is; one that only a default gives
/// means that; any other name means what it means where the function was defined, and a `$`-name what it means to the
/// caller.
pub proof fn law_names_inside_a_call(st: Seq<Cell>, c: Entering, i: int, name: Seq<char>)
    requires
        store_ok(st),
        scope_ok(st, c.base),
        scope_ok(st, c.caller),
        st.len() + 2 * call_width(c) + 1 < usize::MAX,
    ensures
        ({
            let (t, inner) = call_scope(st, c);
            let n = call_width(c);
            &&& 0 <= i < n && c.names[i] == name && c.provided[i] && last_of(c, i, n) ==> meaning(t, inner, name) == Some(
                c.vals[i],
            )
            &&& 0 <= i < n && c.names[i] == name && !c.provided[i] && last_of(c, i, n) && none_of(c, name, true, n)
                ==> meaning(t, inner, name) == Some(c.vals[i])
            &&& none_of(c, name, true, n) && none_of(c, name, false, n) ==> meaning(t, inner, name) == if special(name) {
                meaning(st, c.caller, name)
            } else {
                meaning(st, c.base, name)
            }
        }),
{
    let n = call_width(c);
    let a = st.push(call_cell(st, c.base, c.caller));
    assert(links_ok(st, c.caller.at as int));
    lemma_push_ok(st, call_cell(st, c.base, c.caller));
    law_call_frame_splits(st, c.base, c.caller, name);
    lemma_where(a, newest(a), c, false, n, name);
    let (u, v) = bind_where(a, newest(a), c, false, n);
    lemma_where(u, v, c, true, n, name);
}

/// A `let` binds a name to its value, which takes the name where it is a function without one; every other name means
/// what it meant. A name that the same `let` has bound before keeps its value, and a warning says so.
pub proof fn law_let_binds(s: State, bindings: Seq<Arg>, idx: int, v: Val, scope: Scope, other: Seq<char>)
    requires
        store_ok(s.store),
        scope_ok(s.store, scope),
        s.store.len() + 2 < usize::MAX,
        0 <= idx < bindings.len(),
    ensures
        ({
            let (t, inner) = let_bind(s, bindings, idx, v, scope);
            let name = bound_name(bindings[idx]);
            &&& !bound_before(bindings, idx) ==> meaning(t.store, inner, name) == Some(named_value(v, name)) && (other
                != name ==> meaning(t.store, inner, other) == meaning(s.store, scope, other)) && t.log == s.log
            &&& bound_before(bindings, idx) ==> inner == scope && t.store == s.store && t.log == s.log.push(
                Line::Warning("Ignoring duplicate variable assignment \""@ + name + "\""@),
            )
        }),
{
    let name = bound_name(bindings[idx]);
    if !bound_before(bindings, idx) {
        let a = s.store.push(child_cell(s.store, scope));
        assert(links_ok(s.store, scope.at as int));
        lemma_push_ok(s.store, child_cell(s.store, scope));
        law_child_falls_through(s.store, scope, other);
        law_bind_shadows(a, newest(a), name, named_value(v, name), other);
    }
}

/// A call takes the value of a parameter from the argument that fills it, evaluated where the call stands; else from its
/// default, evaluated where the function was defined; else it is `undef`. A receiver fills a parameter named `this` that
/// no argument fills.
pub proof fn law_values_of_parameters(
    params: Seq<Parameter>,
    m: Matched,
    this: Option<Val>,
    caller: Scope,
    base: Scope,
    i: int,
)
    requires
        0 <= i < params.len() == m.slots.len(),
    ensures
        m.slots[i] matches Some(e) ==> source(params, m, this, caller, base, i) == Job::Eval(e, caller),
        m.slots[i] is None && this is None ==> source(params, m, this, caller, base, i) == match params[i].default {
            Some(d) => Job::Eval(d, base),
            None => Job::PushUndef,
        },
        this matches Some(v) ==> (m.slots[i] is None && crate::calls::param_from(params, "this"@, 0) == Some(i) ==> source(
            params,
            m,
            this,
            caller,
            base,
            i,
        ) == Job::Const(v)),
        m.slots[i] is None && crate::calls::param_from(params, "this"@, 0) != Some(i) ==> source(
            params,
            m,
            this,
            caller,
            base,
            i,
        ) == match params[i].default {
            Some(d) => Job::Eval(d, base),
            None => Job::PushUndef,
        },
{
}

proof fn lemma_group(st: Seq<Cell>, s: Scope, env: Scope, group: Seq<Sibling>, n: nat, name: Seq<char>)
    requires
        store_ok(st),
        scope_ok(st, s),
        n <= group.len(),
        st.len() + n < usize::MAX,
    ensures
        ({
            let (t, u) = bind_group(st, s, env, group, n);
            &&& store_ok(t)
            &&& scope_ok(t, u)
            &&& t.len() == st.len() + n
            &&& (forall|j: int| 0 <= j < n ==> (#[trigger] group[j]).name != name) ==> meaning(t, u, name) == meaning(
                st,
                s,
                name,
            )
            &&& n > 0 && group[n - 1].name == name ==> meaning(t, u, name) == Some(
                sibling_value(group[n - 1], env, Some(group)),
            )
        }),
    decreases n,
{
    if n > 0 {
        let m = (n - 1) as nat;
        lemma_group(st, s, env, group, m, name);
        let (t, u) = bind_group(st, s, env, group, m);
        let v = sibling_value(group[n - 1], env, Some(group));
        lemma_bound_ok(t, u, group[n - 1].name, v);
        law_bind_shadows(t, u, group[n - 1].name, v, name);
    }
}

/// A function that was bound to a name finds itself by that name, and so can call itself; where it belongs to no group,
/// every other name means what it meant where the function was made.
pub proof fn law_functions_find_themselves(
    st: Seq<Cell>,
    callee: Val,
    env: Scope,
    self_name: Option<Seq<char>>,
    group: Option<Seq<Sibling>>,
    other: Seq<char>,
)
    requires
        store_ok(st),
        scope_ok(st, env),
        st.len() + 2 + (match group {
            Some(g) => g.len(),
            None => 0,
        }) < usize::MAX,
    ensures
        ({
            let (t, base) = callee_base(st, callee, env, self_name, group);
            &&& self_name matches Some(n) ==> meaning(t, base, n) == Some(callee)
            &&& (self_name != Some(other) && (match group {
                Some(g) => forall|j: int| 0 <= j < g.len() ==> (#[trigger] g[j]).name != other,
                None => true,
            })) ==> meaning(t, base, other) == meaning(st, env, other)
        }),
{
    if !(self_name is None && (group is None || group->Some_0.len() == 0)) {
        let a = st.push(child_cell(st, env));
        assert(links_ok(st, env.at as int));
        lemma_push_ok(st, child_cell(st, env));
        law_child_falls_through(st, env, other);
        if let Some(g) = group {
            lemma_group(a, newest(a), env, g, g.len(), other);
        }
        let (u, v) = match group {
            Some(g) => bind_group(a, newest(a), env, g, g.len()),
            None => (a, newest(a)),
        };
        if let Some(n) = self_name {
            law_bind_shadows(u, v, n, callee, other);
            law_bind_shadows(u, v, n, callee, n);
        }
    }
}

/// A vector of plain elements has their values at their places.
pub proof fn law_plain_vectors(es: Seq<Expr>, vs: Seq<Val>, n: nat)
    requires
        n <= es.len() == vs.len(),
        forall|i: int| 0 <= i < es.len() ==> !generates(#[trigger] es[i]),
    ensures
        assembled(es, vs, n) == vs.take(n as int),
    decreases n,
{
    if n > 0 {
        law_plain_vectors(es, vs, (n - 1) as nat);
        assert(!generates(es[n - 1]));
        assert(vs.take(n as int) =~= vs.take(n - 1).push(vs[n - 1]));
    } else {
        assert(vs.take(0) =~= Seq::empty());
    }
}

/// A million calls at once are too many, and a million turns of a loop; below that both go on. A failure says what was
/// called.
pub proof fn law_limits(s: State, c: Entering, token: Option<u64>, loop_scope: Scope, state: Cycle)
    ensures
        s.live_calls >= 1_000_000 ==> enter(s, c, token) == (
            s,
            Sig::Failed(
                match c.name {
                    Some(n) => Fault::Eval("Recursion detected calling function '"@ + n + "'"@),
                    None => Fault::Eval("Recursion detected calling function (over 1000000 calls in flight)"@),
                },
            ),
        ),
        s.live_calls < 1_000_000 ==> enter(s, c, token).1 is Running && enter(s, c, token).0.live_calls == s.live_calls
            + 1,
        state.iterations >= 1_000_000 ==> cfor_set_next(s, state.update.len() as int, loop_scope, state) == (
            s,
            Sig::Failed(Fault::Eval("For loop counter exceeded limit"@)),
        ),
        state.iterations < 1_000_000 ==> cfor_set_next(s, state.update.len() as int, loop_scope, state).1 is Running,
{
}

/// Steps are charged to a budget, and a run fails exactly where it has used more than it has; without one nothing is
/// counted.
pub proof fn law_budgets(s: State, n: u64)
    ensures
        s.setup.budget is None ==> charged(s, n) == (s, None::<Fault>),
        s.setup.budget matches Some(b) ==> (s.steps + n <= u64::MAX ==> {
            let (t, fault) = charged(s, n);
            &&& t.steps == s.steps + n
            &&& fault is Some <==> s.steps + n > b
            &&& fault matches Some(x) ==> x == Fault::Eval(
                "eval budget exceeded: "@ + crate::chars::decimal((s.steps + n) as nat) + " steps > "@
                    + crate::chars::decimal(b as nat)
                    + " (untrusted-input resource limit; raise FAB_EVAL_BUDGET or Config::eval_budget)"@,
            )
        }),
{
}

/// Whether a name has come to mean a value: in the new scope it means that value, every other name means what it meant, and
/// nothing else has happened to the run but that the scope may be published as the top level of a file.
pub open spec fn came_to_mean(
    t: State,
    scope: Scope,
    u: State,
    inner: Scope,
    name: Seq<char>,
    v: Val,
    island: Option<usize>,
) -> bool {
    &&& meaning(u.store, inner, name) == Some(v)
    &&& forall|other: Seq<char>| other != name ==> #[trigger] meaning(u.store, inner, other) == meaning(t.store, scope, other)
    &&& forall|other: Seq<char>| #[trigger] meaning(u.store, scope, other) == meaning(t.store, scope, other)
    &&& u.log == t.log && u.draws == t.draws
    &&& island matches Some(i) ==> (i < t.setup.globals.len() ==> u.setup.globals[i as int] == inner)
}

proof fn lemma_came_to_mean(t: State, scope: Scope, name: Seq<char>, v: Val)
    requires
        store_ok(t.store),
        scope_ok(t.store, scope),
    ensures
        came_to_mean(t, scope, t.binding(scope, name, v), t.binding(scope, name, v).here(), name, v, None),
{
    let u = t.binding(scope, name, v);
    let inner = u.here();
    assert forall|other: Seq<char>| other != name implies #[trigger] meaning(u.store, inner, other) == meaning(
        t.store,
        scope,
        other,
    ) by {
        law_bind_shadows(t.store, scope, name, v, other);
    }
    assert forall|other: Seq<char>| #[trigger] meaning(u.store, scope, other) == meaning(t.store, scope, other) by {
        law_bind_shadows(t.store, scope, name, v, other);
    }
    law_bind_shadows(t.store, scope, name, v, name);
}

/// An assignment of a scope is evaluated where those before it are bound, and what it gives is what its name means to those
/// after it. A failure ends the binding, with the place of the expression that failed.
pub proof fn law_assignments_bind_in_order(
    s: State,
    its: Seq<Item>,
    i: int,
    k: int,
    group: Seq<Sibling>,
    scope: Scope,
    island: Option<usize>,
    f: spec_fn(FloatOp, u64, u64) -> u64,
    h: spec_fn(Job, u64, Seq<Seq<char>>) -> Answer,
    n: nat,
)
    requires
        0 <= i < its.len(),
        shape(its[i]) is None,
        its[i] matches Item::Assign(_, e) ==> store_ok(eval_in(s, e, scope, f, h, n).0.store) && scope_ok(
            eval_in(s, e, scope, f, h, n).0.store,
            scope,
        ),
    ensures
        its[i] matches Item::Assign(name, e) ==> match eval_in(s, e, scope, f, h, n) {
            (t, Err(x)) => hoist_from(s, its, i, k, group, scope, island, f, h, n) == (
                t,
                Err::<Scope, (Fault, crate::ast::Span)>((x, e.span)),
            ),
            (t, Ok(v)) => exists|u: State, inner: Scope| #[trigger]
                came_to_mean(t, scope, u, inner, name, named_value(v, name), island) && hoist_from(
                    s,
                    its,
                    i,
                    k,
                    group,
                    scope,
                    island,
                    f,
                    h,
                    n,
                ) == hoist_from(u, its, i + 1, k, group, inner, island, f, h, n),
        },
{
    match its[i] {
        Item::Assign(name, e) => {
            let (t, r) = eval_in(s, e, scope, f, h, n);
            match r {
                Err(_) => {},
                Ok(v) => {
                    let w = named_value(v, name);
                    let b = t.binding(scope, name, w);
                    lemma_came_to_mean(t, scope, name, w);
                    let u = crate::bind::published(b, island, b.here());
                    assert(came_to_mean(t, scope, u, b.here(), name, w, island));
                },
            }
        },
        _ => {},
    }
}

/// A function of a scope is bound under its name before what comes after it, with the whole group of the functions of that
/// scope.
pub proof fn law_functions_bind_as_a_group(
    s: State,
    its: Seq<Item>,
    i: int,
    k: int,
    group: Seq<Sibling>,
    scope: Scope,
    island: Option<usize>,
    f: spec_fn(FloatOp, u64, u64) -> u64,
    h: spec_fn(Job, u64, Seq<Seq<char>>) -> Answer,
    n: nat,
)
    requires
        0 <= i < its.len(),
        shape(its[i]) is Some,
        store_ok(s.store),
        scope_ok(s.store, scope),
    ensures
        exists|u: State, inner: Scope, v: Val| #[trigger]
            came_to_mean(s, scope, u, inner, item_name(its[i]), v, island) && (v matches Val::Function {
                closure_id,
                env,
                group: g,
                ..
            } && closure_id == group[k].closure_id && env == scope && g == Some(group)) && hoist_from(
                s,
                its,
                i,
                k,
                group,
                scope,
                island,
                f,
                h,
                n,
            ) == hoist_from(u, its, i + 1, k + 1, group, inner, island, f, h, n),
{
    let name = item_name(its[i]);
    let v = sibling_value(group[k], scope, Some(group));
    let b = s.binding(scope, name, v);
    lemma_came_to_mean(s, scope, name, v);
    let u = crate::bind::published(b, island, b.here());
    assert(came_to_mean(s, scope, u, b.here(), name, v, island));
}

/// A constant of a file is evaluated where those before it are bound. One that fails is passed over where that is allowed,
/// and else ends the binding.
pub proof fn law_constants_bind_in_order(
    s: State,
    ps: Seq<(Seq<char>, Expr)>,
    i: int,
    scope: Scope,
    island: Option<usize>,
    lenient: bool,
    f: spec_fn(FloatOp, u64, u64) -> u64,
    h: spec_fn(Job, u64, Seq<Seq<char>>) -> Answer,
    n: nat,
)
    requires
        0 <= i < ps.len(),
        store_ok(eval_in(s, ps[i].1, scope, f, h, n).0.store),
        scope_ok(eval_in(s, ps[i].1, scope, f, h, n).0.store, scope),
    ensures
        match eval_in(s, ps[i].1, scope, f, h, n) {
            (t, Err(x)) => constants_from(s, ps, i, scope, island, lenient, f, h, n) == if lenient {
                constants_from(t, ps, i + 1, scope, island, lenient, f, h, n)
            } else {
                (t, Err(x))
            },
            (t, Ok(v)) => exists|u: State, inner: Scope| #[trigger]
                came_to_mean(t, scope, u, inner, ps[i].0, named_value(v, ps[i].0), island) && constants_from(
                    s,
                    ps,
                    i,
                    scope,
                    island,
                    lenient,
                    f,
                    h,
                    n,
                ) == constants_from(u, ps, i + 1, inner, island, lenient, f, h, n),
        },
{
    let (t, r) = eval_in(s, ps[i].1, scope, f, h, n);
    match r {
        Err(_) => {},
        Ok(v) => {
            let w = named_value(v, ps[i].0);
            let b = t.binding(scope, ps[i].0, w);
            lemma_came_to_mean(t, scope, ps[i].0, w);
            let u = crate::bind::published(b, island, b.here());
            assert(came_to_mean(t, scope, u, b.here(), ps[i].0, w, island));
        },
    }
}

/// An argument of a module is evaluated where the module is called, and is what its parameter means inside; a parameter
/// without an argument is left alone.
pub proof fn law_module_arguments(
    s: State,
    params: Seq<Parameter>,
    m: Matched,
    i: int,
    scope: Scope,
    caller: Scope,
    f: spec_fn(FloatOp, u64, u64) -> u64,
    h: spec_fn(Job, u64, Seq<Seq<char>>) -> Answer,
    n: nat,
)
    requires
        0 <= i < params.len() == m.slots.len(),
        m.slots[i] matches Some(e) ==> store_ok(eval_in(s, e, caller, f, h, n).0.store) && scope_ok(
            eval_in(s, e, caller, f, h, n).0.store,
            scope,
        ),
    ensures
        match m.slots[i] {
            None => arguments_from(s, params, m, i, scope, caller, f, h, n) == arguments_from(
                s,
                params,
                m,
                i + 1,
                scope,
                caller,
                f,
                h,
                n,
            ),
            Some(e) => match eval_in(s, e, caller, f, h, n) {
                (t, Err(x)) => arguments_from(s, params, m, i, scope, caller, f, h, n) == (t, Err::<Scope, Fault>(x)),
                (t, Ok(v)) => exists|u: State, inner: Scope| #[trigger]
                    came_to_mean(t, scope, u, inner, params[i].name@, v, None) && arguments_from(
                        s,
                        params,
                        m,
                        i,
                        scope,
                        caller,
                        f,
                        h,
                        n,
                    ) == arguments_from(u, params, m, i + 1, inner, caller, f, h, n),
            },
        },
{
    match m.slots[i] {
        None => {},
        Some(e) => {
            let (t, r) = eval_in(s, e, caller, f, h, n);
            match r {
                Err(_) => {},
                Ok(v) => {
                    lemma_came_to_mean(t, scope, params[i].name@, v);
                },
            }
        },
    }
}

/// A parameter of a module that no argument fills takes its default, evaluated at the top level of the file and not where
/// the module is called; without a default it means `undef`.
pub proof fn law_module_defaults(
    s: State,
    params: Seq<Parameter>,
    m: Matched,
    i: int,
    scope: Scope,
    global: Scope,
    f: spec_fn(FloatOp, u64, u64) -> u64,
    h: spec_fn(Job, u64, Seq<Seq<char>>) -> Answer,
    n: nat,
)
    requires
        0 <= i < params.len() == m.slots.len(),
        m.slots[i] is None,
        default_counts(params, m.slots, i),
        match params[i].default {
            Some(d) => store_ok(eval_in(s, d, global, f, h, n).0.store) && scope_ok(
                eval_in(s, d, global, f, h, n).0.store,
                scope,
            ),
            None => store_ok(s.store) && scope_ok(s.store, scope),
        },
    ensures
        match params[i].default {
            Some(d) => match eval_in(s, d, global, f, h, n) {
                (t, Err(x)) => defaults_from(s, params, m, i, scope, global, f, h, n) == (t, Err::<Scope, Fault>(x)),
                (t, Ok(v)) => exists|u: State, inner: Scope| #[trigger]
                    came_to_mean(t, scope, u, inner, params[i].name@, v, None) && defaults_from(
                        s,
                        params,
                        m,
                        i,
                        scope,
                        global,
                        f,
                        h,
                        n,
                    ) == defaults_from(u, params, m, i + 1, inner, global, f, h, n),
            },
            None => exists|u: State, inner: Scope| #[trigger]
                came_to_mean(s, scope, u, inner, params[i].name@, Val::Undef, None) && defaults_from(
                    s,
                    params,
                    m,
                    i,
                    scope,
                    global,
                    f,
                    h,
                    n,
                ) == defaults_from(u, params, m, i + 1, inner, global, f, h, n),
        },
{
    let (t, r) = match params[i].default {
        Some(d) => eval_in(s, d, global, f, h, n),
        None => (s, Ok(Val::Undef)),
    };
    match r {
        Err(_) => {},
        Ok(v) => {
            lemma_came_to_mean(t, scope, params[i].name@, v);
        },
    }
}

/// A `$`-argument that is no parameter of the module is evaluated where the module is called, and is set inside it.
pub proof fn law_module_settings(
    s: State,
    m: Matched,
    i: int,
    scope: Scope,
    caller: Scope,
    f: spec_fn(FloatOp, u64, u64) -> u64,
    h: spec_fn(Job, u64, Seq<Seq<char>>) -> Answer,
    n: nat,
)
    requires
        0 <= i < m.extra.len(),
        store_ok(eval_in(s, m.extra[i].1, caller, f, h, n).0.store),
        scope_ok(eval_in(s, m.extra[i].1, caller, f, h, n).0.store, scope),
    ensures
        match eval_in(s, m.extra[i].1, caller, f, h, n) {
            (t, Err(x)) => extras_from(s, m, i, scope, caller, f, h, n) == (t, Err::<Scope, Fault>(x)),
            (t, Ok(v)) => exists|u: State, inner: Scope| #[trigger]
                came_to_mean(t, scope, u, inner, m.extra[i].0, v, None) && extras_from(s, m, i, scope, caller, f, h, n)
                    == extras_from(u, m, i + 1, inner, caller, f, h, n),
        },
{
    let (t, r) = eval_in(s, m.extra[i].1, caller, f, h, n);
    match r {
        Err(_) => {},
        Ok(v) => {
            lemma_came_to_mean(t, scope, m.extra[i].0, v);
        },
    }
}

/// A call by value gives its leading parameters the arguments in their order: inside, each means its own, and every name that
/// is none of them means what it meant.
pub proof fn law_leading_arguments(
    s: State,
    params: Seq<Parameter>,
    args: Seq<Val>,
    i: int,
    scope: Scope,
    name: Seq<char>,
    k: int,
)
    requires
        store_ok(s.store),
        scope_ok(s.store, scope),
        0 <= i,
        s.store.len() + params.len() < usize::MAX,
    ensures
        ({
            let (t, inner) = bind_leading(s, params, args, i, scope);
            &&& (forall|j: int| i <= j < params.len() && j < args.len() ==> (#[trigger] params[j]).name@ != name)
                ==> meaning(t.store, inner, name) == meaning(s.store, scope, name)
            &&& i <= k < params.len() && k < args.len() && params[k].name@ == name && (forall|j: int|
                k < j < params.len() && j < args.len() ==> (#[trigger] params[j]).name@ != name) ==> meaning(
                t.store,
                inner,
                name,
            ) == Some(args[k])
        }),
{
    lemma_leading(s, params, args, i, scope, name, k, s.store.len() + params.len() - i);
}

proof fn lemma_leading(
    s: State,
    params: Seq<Parameter>,
    args: Seq<Val>,
    i: int,
    scope: Scope,
    name: Seq<char>,
    k: int,
    room: int,
)
    requires
        store_ok(s.store),
        scope_ok(s.store, scope),
        0 <= i,
        room == s.store.len() + params.len() - i,
        room < usize::MAX,
    ensures
        ({
            let (t, inner) = bind_leading(s, params, args, i, scope);
            &&& (forall|j: int| i <= j < params.len() && j < args.len() ==> (#[trigger] params[j]).name@ != name)
                ==> meaning(t.store, inner, name) == meaning(s.store, scope, name)
            &&& i <= k < params.len() && k < args.len() && params[k].name@ == name && (forall|j: int|
                k < j < params.len() && j < args.len() ==> (#[trigger] params[j]).name@ != name) ==> meaning(
                t.store,
                inner,
                name,
            ) == Some(args[k])
        }),
    decreases params.len() - i,
{
    if i < params.len() && i < args.len() {
        let t = s.binding(scope, params[i].name@, args[i]);
        law_bind_shadows(s.store, scope, params[i].name@, args[i], name);
        lemma_bound_ok(s.store, scope, params[i].name@, args[i]);
        lemma_leading(t, params, args, i + 1, t.here(), name, k, room);
    }
}

/// A call by value of a name that no function has says so; one of a function that all arguments fill evaluates its body where
/// they are bound over the constants.
pub proof fn law_calls_by_value(
    s: State,
    global: Scope,
    name: Seq<char>,
    args: Seq<Val>,
    f: spec_fn(FloatOp, u64, u64) -> u64,
    h: spec_fn(Job, u64, Seq<Seq<char>>) -> Answer,
    n: nat,
)
    ensures
        match crate::machine::def_from(s.setup.functions, name, 0) {
            None => oracle_call(s, global, name, args, f, h, n) == (
                s,
                Err::<Val, Fault>(Fault::Unknown("function `"@ + name + "`"@)),
            ),
            Some(d) => args.len() >= d.params.len() ==> {
                let (u, scope) = bind_leading(s, d.params, args, 0, global);
                oracle_call(s, global, name, args, f, h, n) == eval_in(u, d.body, scope, f, h, n)
            },
        },
{
}

} // verus!

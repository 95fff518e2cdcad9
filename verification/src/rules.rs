//! The rules of evaluation: what an expression gives, from what its parts give.
//!
//! A rule speaks of evaluation without counting steps, and of a run without a budget: what a
//! budget does to a run is said in [`crate::budget`].

use vstd::prelude::*;

use crate::ast::{arg_exprs, special, Arg, BinOp, Expr, ExprKind, Parameter};
use crate::balance::takes;
use crate::calls::matched;
use crate::console::{
    assert_fault, assert_parts, echo_text, shown_count, too_deep, too_deep_fault,
};
use crate::discipline::{law_run_keeps_bindings, lemma_call_scope_grows, lemma_grows_trans};
use crate::host::{reads_after, resumed, Answer};
use crate::iterate::range_of;
use crate::ledger::{continues, law_equal_counters_mean_no_effect, law_run_takes_nothing_back};
use crate::machine::{
    all_positional, assembled, body_step, call_names, call_provided, call_scope, call_step,
    callee_base, def_from, enter, evals, extra_exprs, known, let_bind, node_step, perform,
    perform_binding, perform_call, perform_console, perform_plain, read, recursion_fault, snap_of, sources,
    uncompiled, verdict_step, Code, Def, Entering, Job, State, MAX_CALL_DEPTH,
};
use crate::message::{Fault, Line};
use crate::num::ONE;
use crate::ops::{combined, indexed, member_at, transformed};
use crate::reach::{
    alone, ends_at, gives, law_given_value, lemma_asked, lemma_begins, lemma_do, lemma_ends, lemma_fails,
    lemma_over, lemma_refused, lemma_row, lemma_row_fails, lemma_stops, lemma_tail, lemma_then, on,
    reaches, row_gives, self_contained, yields, Around,
};
use crate::run::{back, misfit};
use crate::scope::{grows, local_function, meaning, Scope};
use crate::value::{truthy, vector_of, Val};

verus! {

/// A literal gives its value, and changes nothing.
pub proof fn law_literals(s: State, e: Expr, scope: Scope, w: Around)
    requires
        s.setup.budget is None,
    ensures
        match e.kind {
            ExprKind::Num(n) => yields(s, e, scope, w, s, Ok(Val::Num(n))),
            ExprKind::Bool(b) => yields(s, e, scope, w, s, Ok(Val::Bool(b))),
            ExprKind::Str(x) => yields(s, e, scope, w, s, Ok(Val::Str(x@))),
            ExprKind::Undef => yields(s, e, scope, w, s, Ok(Val::Undef)),
            _ => true,
        },
{
    lemma_begins(s, e, scope, w);
    let bare = on(s, Seq::empty(), Seq::empty());
    let v = match e.kind {
        ExprKind::Num(n) => Val::Num(n),
        ExprKind::Bool(b) => Val::Bool(b),
        ExprKind::Str(x) => Val::Str(x@),
        _ => Val::Undef,
    };
    let y = bare.value(v);
    assert(y.values =~= seq![v]);
    assert(back(s, y) == s);
    if e.kind is Num || e.kind is Bool || e.kind is Str || e.kind is Undef {
        lemma_ends(s, Job::Eval(e, scope), w, y, v);
    }
}

/// A name gives what it means in the scope; the read is recorded. A name that means nothing gives
/// `undef`, and unless it is a `$`-name a warning.
pub proof fn law_names(s: State, e: Expr, scope: Scope, w: Around)
    requires
        s.setup.budget is None,
        e.kind is Ident,
    ensures
        ({
            let name = e.kind->Ident_0@;
            let (m, t) = read(s, scope, name);
            match m {
                Some(v) => yields(s, e, scope, w, t, Ok(v)),
                None => yields(
                    s,
                    e,
                    scope,
                    w,
                    if special(name) {
                        t
                    } else {
                        t.say(Line::Warning("Ignoring unknown variable '"@ + name + "'"@))
                    },
                    Ok(Val::Undef),
                ),
            }
        }),
{
    let name = e.kind->Ident_0@;
    lemma_begins(s, e, scope, w);
    let bare = on(s, Seq::empty(), Seq::empty());
    let y = node_step(bare, e, scope);
    let v = match read(s, scope, name).0 {
        Some(v) => v,
        None => Val::Undef,
    };
    assert(y.values =~= seq![v]);
    lemma_ends(s, Job::Eval(e, scope), w, y, v);
    let (m, t) = read(s, scope, name);
    assert(back(s, y) == if m is None && !special(name) {
        t.say(Line::Warning("Ignoring unknown variable '"@ + name + "'"@))
    } else {
        t
    });
}

/// What comes of one part by one task.
proof fn lemma_one(
    s: State,
    e: Expr,
    scope: Scope,
    w: Around,
    j: Job,
    part: Job,
    t: State,
    r: Result<Val, Fault>,
)
    requires
        s.setup.budget is None,
        takes(part) == 0,
        node_step(on(s, Seq::empty(), Seq::empty()), e, scope) == on(s, seq![j, part], Seq::empty()),
        gives(s, part, w, t, r),
        r matches Ok(a) ==> perform(on(t, Seq::empty(), seq![a]), j, w.f).1 is Running,
    ensures
        match r {
            Ok(a) => {
                &&& reaches(
                    alone(s, Job::Eval(e, scope)),
                    w,
                    perform(on(t, Seq::empty(), seq![a]), j, w.f).0,
                )
                &&& t.setup == s.setup
                &&& t.tasks == s.tasks
                &&& t.values == s.values
            },
            Err(x) => yields(s, e, scope, w, t, Err(x)),
        },
{
    lemma_begins(s, e, scope, w);
    lemma_over(s, Job::Eval(e, scope), w, s, j, part, t, r);
}

/// What comes of two parts, one after the other, by one task.
proof fn lemma_two(
    s: State,
    e: Expr,
    scope: Scope,
    w: Around,
    j: Job,
    first: Job,
    second: Job,
    t: State,
    q: Result<Val, Fault>,
    u: State,
    r: Result<Val, Fault>,
)
    requires
        s.setup.budget is None,
        takes(first) == 0,
        takes(second) == 0,
        node_step(on(s, Seq::empty(), Seq::empty()), e, scope) == on(
            s,
            seq![j, second, first],
            Seq::empty(),
        ),
        gives(s, first, w, t, q),
        q is Ok ==> gives(t, second, w, u, r),
        match (q, r) {
            (Ok(a), Ok(b)) => perform(on(u, Seq::empty(), seq![a, b]), j, w.f).1 is Running,
            _ => true,
        },
    ensures
        match (q, r) {
            (Err(x), _) => yields(s, e, scope, w, t, Err(x)),
            (Ok(a), Err(x)) => yields(s, e, scope, w, u, Err(x)),
            (Ok(a), Ok(b)) => {
                &&& reaches(
                    alone(s, Job::Eval(e, scope)),
                    w,
                    perform(on(u, Seq::empty(), seq![a, b]), j, w.f).0,
                )
                &&& u.setup == s.setup
                &&& u.tasks == s.tasks
                &&& u.values == s.values
            },
        },
{
    let start = alone(s, Job::Eval(e, scope));
    let none = Seq::<Val>::empty();
    let one = Seq::<Job>::empty().push(j);
    lemma_begins(s, e, scope, w);
    assert(seq![j, second, first] =~= one.push(second).push(first));
    match q {
        Err(x) => {
            lemma_fails(s, Job::Eval(e, scope), w, s, first, t, x, one.push(second), none);
        },
        Ok(a) => {
            lemma_then(start, s, first, w, t, a, one.push(second), none);
            match r {
                Ok(b) => {
                    lemma_then(start, t, second, w, u, b, one, none.push(a));
                    assert(none.push(a).push(b) =~= seq![a, b]);
                    lemma_do(start, u, j, w, Seq::empty(), seq![a, b]);
                },
                Err(x) => {
                    lemma_fails(s, Job::Eval(e, scope), w, t, second, u, x, one, none.push(a));
                },
            }
        },
    }
}

/// A prefix operator applies to what its operand gives.
pub proof fn law_unary(s: State, e: Expr, scope: Scope, w: Around, t: State, r: Result<Val, Fault>)
    requires
        s.setup.budget is None,
        e.kind is Unary,
        yields(s, *e.kind->Unary_operand, scope, w, t, r),
    ensures
        match r {
            Ok(a) => {
                let (v, why) = transformed(e.kind->Unary_op, a, w.f);
                yields(s, e, scope, w, t.warned(why), Ok(v))
            },
            Err(x) => yields(s, e, scope, w, t, Err(x)),
        },
{
    let op = e.kind->Unary_op;
    let part = Job::Eval(*e.kind->Unary_operand, scope);
    reveal(perform_plain);
    assert(node_step(on(s, Seq::empty(), Seq::empty()), e, scope).tasks =~= seq![
        Job::Unary(op),
        part,
    ]);
    lemma_one(s, e, scope, w, Job::Unary(op), part, t, r);
    match r {
        Ok(a) => {
            let (v, why) = transformed(op, a, w.f);
            let y = perform(on(t, Seq::empty(), seq![a]), Job::Unary(op), w.f).0;
            assert(y.values =~= seq![v]);
            lemma_ends(s, Job::Eval(e, scope), w, y, v);
            assert(back(s, y) == t.warned(why));
        },
        Err(x) => {},
    }
}

/// An operator that evaluates both sides combines what they give, the left one first. Where a side
/// fails, so does the whole, and the right side is then not evaluated if the left one failed.
pub proof fn law_binary(
    s: State,
    e: Expr,
    scope: Scope,
    w: Around,
    t: State,
    q: Result<Val, Fault>,
    u: State,
    r: Result<Val, Fault>,
)
    requires
        s.setup.budget is None,
        e.kind is Binary,
        e.kind->Binary_op != BinOp::And,
        e.kind->Binary_op != BinOp::Or,
        yields(s, *e.kind->Binary_lhs, scope, w, t, q),
        q is Ok ==> yields(t, *e.kind->Binary_rhs, scope, w, u, r),
    ensures
        match (q, r) {
            (Err(x), _) => yields(s, e, scope, w, t, Err(x)),
            (Ok(a), Err(x)) => yields(s, e, scope, w, u, Err(x)),
            (Ok(a), Ok(b)) => {
                let (v, why) = combined(e.kind->Binary_op, a, b, w.f);
                yields(s, e, scope, w, u.warned(why), Ok(v))
            },
        },
{
    let j = Job::Binary(e.kind->Binary_op);
    let first = Job::Eval(*e.kind->Binary_lhs, scope);
    let second = Job::Eval(*e.kind->Binary_rhs, scope);
    reveal(perform_plain);
    assert(node_step(on(s, Seq::empty(), Seq::empty()), e, scope).tasks =~= seq![j, second, first]);
    lemma_two(s, e, scope, w, j, first, second, t, q, u, r);
    match (q, r) {
        (Ok(a), Ok(b)) => {
            let (v, why) = combined(e.kind->Binary_op, a, b, w.f);
            let z = on(u, Seq::empty(), seq![a, b]);
            assert(z.popped().values =~= seq![a]);
            let y = perform(z, j, w.f).0;
            assert(y.values =~= seq![v]);
            lemma_ends(s, Job::Eval(e, scope), w, y, v);
            assert(back(s, y) == u.warned(why));
        },
        _ => {},
    }
}

/// An index is taken of what the base gives, by what the index gives; the base comes first.
pub proof fn law_index(
    s: State,
    e: Expr,
    scope: Scope,
    w: Around,
    t: State,
    q: Result<Val, Fault>,
    u: State,
    r: Result<Val, Fault>,
)
    requires
        s.setup.budget is None,
        e.kind is Index,
        yields(s, *e.kind->Index_base, scope, w, t, q),
        q is Ok ==> yields(t, *e.kind->Index_index, scope, w, u, r),
    ensures
        match (q, r) {
            (Err(x), _) => yields(s, e, scope, w, t, Err(x)),
            (Ok(a), Err(x)) => yields(s, e, scope, w, u, Err(x)),
            (Ok(a), Ok(b)) => yields(s, e, scope, w, u, Ok(indexed(a, b))),
        },
{
    let first = Job::Eval(*e.kind->Index_base, scope);
    let second = Job::Eval(*e.kind->Index_index, scope);
    reveal(perform_plain);
    assert(node_step(on(s, Seq::empty(), Seq::empty()), e, scope).tasks =~= seq![
        Job::Index,
        second,
        first,
    ]);
    lemma_two(s, e, scope, w, Job::Index, first, second, t, q, u, r);
    match (q, r) {
        (Ok(a), Ok(b)) => {
            let z = on(u, Seq::empty(), seq![a, b]);
            assert(z.popped().values =~= seq![a]);
            let y = perform(z, Job::Index, w.f).0;
            assert(y.values =~= seq![indexed(a, b)]);
            lemma_ends(s, Job::Eval(e, scope), w, y, indexed(a, b));
            assert(back(s, y) == u);
        },
        _ => {},
    }
}

/// A member is taken of what the base gives.
pub proof fn law_member(s: State, e: Expr, scope: Scope, w: Around, t: State, r: Result<Val, Fault>)
    requires
        s.setup.budget is None,
        e.kind is Member,
        yields(s, *e.kind->Member_base, scope, w, t, r),
    ensures
        match r {
            Ok(a) => yields(s, e, scope, w, t, Ok(member_at(a, e.kind->Member_field@))),
            Err(x) => yields(s, e, scope, w, t, Err(x)),
        },
{
    let j = Job::Member(e.kind->Member_field@);
    let part = Job::Eval(*e.kind->Member_base, scope);
    reveal(perform_plain);
    assert(node_step(on(s, Seq::empty(), Seq::empty()), e, scope).tasks =~= seq![j, part]);
    lemma_one(s, e, scope, w, j, part, t, r);
    match r {
        Ok(a) => {
            let v = member_at(a, e.kind->Member_field@);
            let y = perform(on(t, Seq::empty(), seq![a]), j, w.f).0;
            assert(y.values =~= seq![v]);
            lemma_ends(s, Job::Eval(e, scope), w, y, v);
            assert(back(s, y) == t);
        },
        Err(x) => {},
    }
}

/// A conditional gives what the branch gives that its condition chooses; the other branch is not
/// evaluated.
pub proof fn law_ternary(
    s: State,
    e: Expr,
    scope: Scope,
    w: Around,
    t: State,
    q: Result<Val, Fault>,
    u: State,
    r: Result<Val, Fault>,
)
    requires
        s.setup.budget is None,
        e.kind is Ternary,
        yields(s, *e.kind->Ternary_cond, scope, w, t, q),
        q matches Ok(a) ==> yields(
            t,
            if truthy(a) {
                *e.kind->Ternary_yes
            } else {
                *e.kind->Ternary_no
            },
            scope,
            w,
            u,
            r,
        ),
    ensures
        match q {
            Err(x) => yields(s, e, scope, w, t, Err(x)),
            Ok(_) => yields(s, e, scope, w, u, r),
        },
{
    let j = Job::Ternary { yes: *e.kind->Ternary_yes, no: *e.kind->Ternary_no, scope };
    let part = Job::Eval(*e.kind->Ternary_cond, scope);
    reveal(perform_plain);
    assert(node_step(on(s, Seq::empty(), Seq::empty()), e, scope).tasks =~= seq![j, part]);
    lemma_one(s, e, scope, w, j, part, t, q);
    match q {
        Ok(a) => {
            let branch = Job::Eval(
                if truthy(a) {
                    *e.kind->Ternary_yes
                } else {
                    *e.kind->Ternary_no
                },
                scope,
            );
            let y = perform(on(t, Seq::empty(), seq![a]), j, w.f).0;
            assert(y.tasks =~= seq![branch]);
            assert(y.values =~= Seq::<Val>::empty());
            assert(y == on(t, seq![branch], Seq::empty()));
            lemma_tail(s, Job::Eval(e, scope), w, t, branch, u, r);
        },
        Err(x) => {},
    }
}

/// `&&` and `||` evaluate their right side only where the left one does not decide; what they give
/// is a truth value.
pub proof fn law_short_circuit(
    s: State,
    e: Expr,
    scope: Scope,
    w: Around,
    t: State,
    q: Result<Val, Fault>,
    u: State,
    r: Result<Val, Fault>,
)
    requires
        s.setup.budget is None,
        e.kind is Binary,
        e.kind->Binary_op == BinOp::And || e.kind->Binary_op == BinOp::Or,
        yields(s, *e.kind->Binary_lhs, scope, w, t, q),
        q matches Ok(a) ==> truthy(a) != (e.kind->Binary_op == BinOp::Or) ==> yields(
            t,
            *e.kind->Binary_rhs,
            scope,
            w,
            u,
            r,
        ),
    ensures
        match q {
            Err(x) => yields(s, e, scope, w, t, Err(x)),
            Ok(a) => if truthy(a) == (e.kind->Binary_op == BinOp::Or) {
                yields(s, e, scope, w, t, Ok(Val::Bool(truthy(a))))
            } else {
                match r {
                    Ok(b) => yields(s, e, scope, w, u, Ok(Val::Bool(truthy(b)))),
                    Err(x) => yields(s, e, scope, w, u, Err(x)),
                }
            },
        },
{
    let op = e.kind->Binary_op;
    let rhs = Job::Eval(*e.kind->Binary_rhs, scope);
    let j = Job::ShortCircuit { op, rhs: *e.kind->Binary_rhs, scope };
    let part = Job::Eval(*e.kind->Binary_lhs, scope);
    let jo = Job::Eval(e, scope);
    let none = Seq::<Job>::empty();
    reveal(perform_plain);
    assert(node_step(on(s, Seq::empty(), Seq::empty()), e, scope).tasks =~= seq![j, part]);
    lemma_one(s, e, scope, w, j, part, t, q);
    match q {
        Ok(a) => {
            let y = perform(on(t, Seq::empty(), seq![a]), j, w.f).0;
            if truthy(a) == (op == BinOp::Or) {
                assert(y.values =~= seq![Val::Bool(truthy(a))]);
                lemma_ends(s, jo, w, y, Val::Bool(truthy(a)));
                assert(back(s, y) == t);
            } else {
                let one = none.push(Job::Binary(op));
                assert(y.values =~= seq![a]);
                assert(y.tasks =~= one.push(rhs));
                assert(y == on(t, one.push(rhs), seq![a]));
                match r {
                    Ok(b) => {
                        lemma_then(alone(s, jo), t, rhs, w, u, b, one, seq![a]);
                        assert(seq![a].push(b) =~= seq![a, b]);
                        let z = on(u, none, seq![a, b]);
                        assert(z.popped().values =~= seq![a]);
                        lemma_do(alone(s, jo), u, Job::Binary(op), w, none, seq![a, b]);
                        let end = perform(z, Job::Binary(op), w.f).0;
                        let (v, why) = combined(op, a, b, w.f);
                        assert(v == Val::Bool(truthy(b)) && why is None);
                        assert(end.values =~= seq![v]);
                        lemma_ends(s, jo, w, end, v);
                        assert(back(s, end) == u);
                    },
                    Err(x) => {
                        lemma_fails(s, jo, w, t, rhs, u, x, one, seq![a]);
                    },
                }
            }
        },
        Err(x) => {},
    }
}

/// A vector is made of what its elements give, evaluated from left to right.
pub proof fn law_vector(
    s: State,
    e: Expr,
    scope: Scope,
    w: Around,
    t: State,
    r: Result<Seq<Val>, Fault>,
)
    requires
        s.setup.budget is None,
        e.kind is Vector,
        row_gives(
            s,
            evals(e.kind->Vector_0@, scope),
            e.kind->Vector_0@.len(),
            w,
            t,
            r,
        ),
    ensures
        match r {
            Ok(vs) => yields(
                s,
                e,
                scope,
                w,
                t,
                Ok(vector_of(assembled(e.kind->Vector_0@, vs, vs.len()))),
            ),
            Err(x) => yields(s, e, scope, w, t, Err(x)),
        },
{
    let es = e.kind->Vector_0@;
    let js = evals(es, scope);
    let jo = Job::Eval(e, scope);
    let j = Job::VectorSplice(es);
    let none = Seq::<Val>::empty();
    let one = Seq::<Job>::empty().push(j);
    lemma_begins(s, e, scope, w);
    assert(js.take(js.len() as int) =~= js);
    match r {
        Ok(vs) => {
            lemma_row(alone(s, jo), s, js, js.len(), w, t, vs, one, none);
            assert(none + vs =~= vs);
            reveal(perform_plain);
            lemma_do(alone(s, jo), t, j, w, Seq::empty(), vs);
            let z = on(t, Seq::empty(), vs);
            let y = perform(z, j, w.f).0;
            assert(z.top_n(es.len()) =~= vs);
            let v = vector_of(assembled(es, vs, vs.len()));
            assert(y.values =~= seq![v]);
            lemma_ends(s, jo, w, y, v);
            assert(back(s, y) == t);
        },
        Err(x) => {
            lemma_row_fails(s, jo, s, js, js.len(), w, t, x, one, none);
        },
    }
}

/// The evaluation of an expression, as a value or as an element of a vector.
pub open spec fn body_job(e: Expr, elem: bool, scope: Scope) -> Job {
    if elem {
        Job::LcElem(e, scope)
    } else {
        Job::Eval(e, scope)
    }
}

/// The task that binds the name `idx` of a `let`.
pub open spec fn let_job(bindings: Seq<Arg>, idx: nat, body: Expr, elem: bool, scope: Scope) -> Job {
    if elem {
        Job::LcLetStep { bindings, idx: idx as usize, body, scope }
    } else {
        Job::LetStep { bindings, idx: idx as usize, body, scope }
    }
}

/// What a `let` gives from its binding `idx` on: each binding is evaluated in the scope with those
/// before it, and the body, as a value or as an element of a vector, in the scope with all of them.
pub open spec fn let_gives(
    s: State,
    bindings: Seq<Arg>,
    idx: nat,
    body: Expr,
    elem: bool,
    scope: Scope,
    w: Around,
    t: State,
    r: Result<Val, Fault>,
) -> bool
    decreases bindings.len() - idx,
{
    if idx >= bindings.len() {
        gives(s, body_job(body, elem, scope), w, t, r)
    } else {
        exists|u: State, q: Result<Val, Fault>|
            #[trigger] yields(s, bindings[idx as int].value, scope, w, u, q) && match q {
                Err(x) => t == u && r == Err::<Val, Fault>(x),
                Ok(a) => {
                    let (v, inner) = let_bind(u, bindings, idx as int, a, scope);
                    let_gives(v, bindings, idx + 1, body, elem, inner, w, t, r)
                },
            }
    }
}

pub proof fn lemma_let(
    o: State,
    jo: Job,
    s: State,
    bindings: Seq<Arg>,
    idx: nat,
    body: Expr,
    elem: bool,
    scope: Scope,
    w: Around,
    t: State,
    r: Result<Val, Fault>,
)
    requires
        s.setup.budget is None,
        idx < bindings.len() <= usize::MAX,
        let_gives(s, bindings, idx, body, elem, scope, w, t, r),
        reaches(
            alone(o, jo),
            w,
            on(
                s,
                seq![
                    let_job(bindings, idx, body, elem, scope),
                    Job::Eval(bindings[idx as int].value, scope),
                ],
                Seq::empty(),
            ),
        ),
        s.tasks == o.tasks,
        s.values == o.values,
    ensures
        gives(o, jo, w, t, r),
    decreases bindings.len() - idx,
{
    let (u, q) = choose|u: State, q: Result<Val, Fault>|
        #[trigger] yields(s, bindings[idx as int].value, scope, w, u, q) && match q {
            Err(x) => t == u && r == Err::<Val, Fault>(x),
            Ok(a) => {
                let (v, inner) = let_bind(u, bindings, idx as int, a, scope);
                let_gives(v, bindings, idx + 1, body, elem, inner, w, t, r)
            },
        };
    let j = let_job(bindings, idx, body, elem, scope);
    let part = Job::Eval(bindings[idx as int].value, scope);
    let none = Seq::<Val>::empty();
    let one = Seq::<Job>::empty().push(j);
    assert(seq![j, part] =~= one.push(part));
    match q {
        Err(x) => {
            lemma_fails(o, jo, w, s, part, u, x, one, none);
        },
        Ok(a) => {
            lemma_then(alone(o, jo), s, part, w, u, a, one, none);
            assert(none.push(a) =~= seq![a]);
            let z = on(u, Seq::empty(), seq![a]);
            assert(z.popped().values =~= none);
            reveal(perform_binding);
            lemma_do(alone(o, jo), u, j, w, Seq::empty(), seq![a]);
            let y = perform(z, j, w.f).0;
            let (v, inner) = let_bind(u, bindings, idx as int, a, scope);
            assert(let_bind(z.popped(), bindings, idx as int, a, scope) == (
                on(v, Seq::empty(), none),
                inner,
            ));
            if idx + 1 < bindings.len() {
                let k = (idx + 1) as nat;
                let next_tasks = seq![
                    let_job(bindings, k, body, elem, inner),
                    Job::Eval(bindings[k as int].value, inner),
                ];
                assert(y.tasks =~= next_tasks);
                assert(y == on(v, next_tasks, none));
                lemma_let(o, jo, v, bindings, k, body, elem, inner, w, t, r);
            } else {
                let last = body_job(body, elem, inner);
                assert(y.tasks =~= seq![last]);
                assert(y == on(v, seq![last], none));
                lemma_tail(o, jo, w, v, last, t, r);
            }
        },
    }
}

/// A `let` evaluates its bindings in turn, each in the scope of those before it, and then its body.
pub proof fn law_let(s: State, e: Expr, scope: Scope, w: Around, t: State, r: Result<Val, Fault>)
    requires
        s.setup.budget is None,
        e.kind is Let,
        let_gives(s, e.kind->Let_bindings@, 0, *e.kind->Let_body, false, scope, w, t, r),
    ensures
        yields(s, e, scope, w, t, r),
{
    let bindings = e.kind->Let_bindings@;
    let body = *e.kind->Let_body;
    let jo = Job::Eval(e, scope);
    let bare = on(s, Seq::empty(), Seq::empty());
    lemma_begins(s, e, scope, w);
    let y = node_step(bare, e, scope);
    if bindings.len() == 0 {
        assert(y.tasks =~= seq![Job::Eval(body, scope)]);
        assert(y == on(s, seq![Job::Eval(body, scope)], Seq::empty()));
        lemma_tail(s, jo, w, s, Job::Eval(body, scope), t, r);
    } else {
        let ts = seq![
            let_job(bindings, 0, body, false, scope),
            Job::Eval(bindings[0].value, scope),
        ];
        assert(y.tasks =~= ts);
        assert(y == on(s, ts, Seq::empty()));
        assert(e.kind->Let_bindings.len() == bindings.len());
        lemma_let(s, jo, s, bindings, 0, body, false, scope, w, t, r);
    }
}

/// The state once a call is over.
pub open spec fn returned(s: State) -> State {
    State {
        live_calls: if s.live_calls > 0 {
            (s.live_calls - 1) as u32
        } else {
            0
        },
        ..s
    }
}

/// What a call gives: the values of its parameters and of what is bound beside them are evaluated
/// first, in that order; then it is applied to them.
pub open spec fn call_gives(
    s: State,
    params: Seq<Parameter>,
    body: Expr,
    args: Seq<Arg>,
    caller: Scope,
    base: Scope,
    name: Option<Seq<char>>,
    this: Option<Val>,
    w: Around,
    t: State,
    r: Result<Val, Fault>,
) -> bool {
    let m = matched(params, args, args.len());
    let js = evals(extra_exprs(m), caller) + sources(params, m, this, caller, base);
    exists|u: State, q: Result<Seq<Val>, Fault>|
        #[trigger] row_gives(s, js, js.len(), w, u, q) && match q {
            Err(x) => t == u && r == Err::<Val, Fault>(x),
            Ok(vs) => applied_gives(
                u,
                Entering {
                    names: call_names(params, m),
                    provided: call_provided(params, m, this),
                    vals: vs,
                    body,
                    base,
                    caller,
                    name: if m.extra.len() == 0 {
                        name
                    } else {
                        None
                    },
                },
                w,
                t,
                r,
            ),
        }
}

/// What a call gives once it has its values. A compiled version is asked for where it has a name
/// and the run is set up so, then a remembered value; where there is neither, its body is
/// evaluated.
pub open spec fn applied_gives(
    s: State,
    c: Entering,
    w: Around,
    t: State,
    r: Result<Val, Fault>,
) -> bool {
    if s.setup.jit && c.name is Some {
        match (w.h)(Job::AwaitJit(c), s.draws, s.modules) {
            Answer::Compiled { value: Some(v), draws } => t == (State { draws, ..s }) && r == Ok::<
                Val,
                Fault,
            >(v),
            Answer::Compiled { value: None, draws } => uncompiled_gives(
                State { draws, ..s },
                c,
                w,
                t,
                r,
            ),
            _ => t == s && r == Err::<Val, Fault>(misfit()),
        }
    } else {
        uncompiled_gives(s, c, w, t, r)
    }
}

/// What a call without a compiled version gives.
pub open spec fn uncompiled_gives(
    s: State,
    c: Entering,
    w: Around,
    t: State,
    r: Result<Val, Fault>,
) -> bool {
    if s.setup.memo {
        match (w.h)(Job::AwaitMemo(c), s.draws, s.modules) {
            Answer::Memo { hit: Some(v), .. } => t == s && r == Ok::<Val, Fault>(v),
            Answer::Memo { hit: None, .. } => entered_gives(s, c, w, t, r),
            _ => t == s && r == Err::<Val, Fault>(misfit()),
        }
    } else {
        entered_gives(s, c, w, t, r)
    }
}

/// What a call gives whose body is evaluated, in a scope of its own. Too many calls at once are a
/// failure.
pub open spec fn entered_gives(
    s: State,
    c: Entering,
    w: Around,
    t: State,
    r: Result<Val, Fault>,
) -> bool {
    if s.live_calls >= MAX_CALL_DEPTH {
        t == s && r == Err::<Val, Fault>(recursion_fault(c.name))
    } else {
        let (st, inner) = call_scope(s.store, c);
        exists|u: State|
            #[trigger] yields(
                State { store: st, live_calls: (s.live_calls + 1) as u32, ..s },
                c.body,
                inner,
                w,
                u,
                r,
            ) && t == if r is Ok {
                returned(u)
            } else {
                u
            }
    }
}

/// A run that enters a call, by a step or by an answer, on behalf of a call that was waiting.
proof fn lemma_entered(
    o: State,
    jo: Job,
    s: State,
    c: Entering,
    token: Option<u64>,
    w: Around,
    t: State,
    r: Result<Val, Fault>,
)
    requires
        s.setup.budget is None,
        s.live_calls < MAX_CALL_DEPTH,
        entered_gives(s, c, w, t, r),
        reaches(alone(o, jo), w, enter(on(s, Seq::empty(), Seq::empty()), c, token).0),
        s.tasks == o.tasks,
        s.values == o.values,
    ensures
        gives(o, jo, w, t, r),
{
    let none = Seq::<Job>::empty();
    let nil = Seq::<Val>::empty();
    let bare = on(s, none, nil);
    let (st, inner) = call_scope(s.store, c);
    let s2 = State { store: st, live_calls: (s.live_calls + 1) as u32, ..s };
    let part = Job::Eval(c.body, inner);
    let below = match token {
        Some(k) => none.push(Job::CallReturn).push(
            Job::CacheStore { token: k, snap: snap_of(bare) },
        ),
        None => none.push(Job::CallReturn),
    };
    let y = enter(bare, c, token).0;
    assert(y.tasks =~= below.push(part));
    assert(y == on(s2, below.push(part), nil));
    let u = choose|u: State|
        #[trigger] yields(s2, c.body, inner, w, u, r) && t == if r is Ok {
            returned(u)
        } else {
            u
        };
    match r {
        Err(x) => {
            lemma_fails(o, jo, w, s2, part, u, x, below, nil);
        },
        Ok(v) => {
            lemma_then(alone(o, jo), s2, part, w, u, v, below, nil);
            let vs = nil.push(v);
            reveal(perform_call);
            match token {
                Some(k) => {
                    lemma_do(
                        alone(o, jo),
                        u,
                        Job::CacheStore { token: k, snap: snap_of(bare) },
                        w,
                        none.push(Job::CallReturn),
                        vs,
                    );
                },
                None => {},
            }
            lemma_do(alone(o, jo), u, Job::CallReturn, w, none, vs);
            let end = perform(on(u, none, vs), Job::CallReturn, w.f).0;
            assert(end == on(returned(u), none, vs));
            assert(end.values =~= seq![v]);
            lemma_ends(o, jo, w, end, v);
            assert(back(o, end) == returned(u));
        },
    }
}

/// A call that waits, with nothing below it.
proof fn lemma_waiting(s: State, wait: Job)
    ensures
        on(s, Seq::empty(), Seq::empty()).task(wait) == on(s, Seq::empty().push(wait), Seq::empty()),
        Seq::<Job>::empty().push(wait).drop_last() == Seq::<Job>::empty(),
{
    assert(Seq::<Job>::empty().push(wait).drop_last() =~= Seq::<Job>::empty());
}

/// A run that has come to a task which enters a call, or looks for its remembered value, or is told
/// by an answer to do so.
proof fn lemma_uncompiled(
    o: State,
    jo: Job,
    p: State,
    j: Job,
    vs: Seq<Val>,
    s: State,
    c: Entering,
    w: Around,
    t: State,
    r: Result<Val, Fault>,
)
    requires
        p.setup.budget is None,
        s.setup == p.setup,
        reaches(alone(o, jo), w, on(p, Seq::empty().push(j), vs)),
        perform(on(p, Seq::empty(), vs), j, w.f) == uncompiled(
            on(s, Seq::empty(), Seq::empty()),
            c,
        ),
        uncompiled_gives(s, c, w, t, r),
        s.tasks == o.tasks,
        s.values == o.values,
    ensures
        gives(o, jo, w, t, r),
{
    let none = Seq::<Job>::empty();
    let nil = Seq::<Val>::empty();
    let bare = on(s, none, nil);
    assert(back(o, bare) == s);
    if s.setup.memo {
        let wait = Job::AwaitMemo(c);
        lemma_waiting(s, wait);
        reveal(resumed);
        assert(back(o, bare.task(wait)) == s);
        match (w.h)(wait, s.draws, s.modules) {
            Answer::Memo { hit: Some(v), .. } => {
                let end = bare.value(v);
                lemma_asked(alone(o, jo), w, p, j, none, vs, end);
                assert(end.values =~= seq![v]);
                lemma_ends(o, jo, w, end, v);
                assert(back(o, end) == s);
            },
            Answer::Memo { hit: None, token } => {
                if s.live_calls >= MAX_CALL_DEPTH {
                    lemma_refused(o, jo, w, p, j, none, vs, bare, recursion_fault(c.name));
                } else {
                    lemma_asked(alone(o, jo), w, p, j, none, vs, enter(bare, c, token).0);
                    lemma_entered(o, jo, s, c, token, w, t, r);
                }
            },
            _ => {
                lemma_refused(o, jo, w, p, j, none, vs, bare.task(wait), misfit());
            },
        }
    } else if s.live_calls >= MAX_CALL_DEPTH {
        lemma_stops(o, jo, w, p, j, recursion_fault(c.name), none, vs);
    } else {
        lemma_do(alone(o, jo), p, j, w, none, vs);
        lemma_entered(o, jo, s, c, None, w, t, r);
    }
}

/// A run that has come to a call with its values.
proof fn lemma_applied(
    o: State,
    jo: Job,
    s: State,
    c: Entering,
    w: Around,
    t: State,
    r: Result<Val, Fault>,
)
    requires
        s.setup.budget is None,
        c.vals.len() == c.names.len(),
        applied_gives(s, c, w, t, r),
        reaches(
            alone(o, jo),
            w,
            on(
                s,
                Seq::empty().push(
                    Job::Apply {
                        names: c.names,
                        provided: c.provided,
                        body: c.body,
                        base: c.base,
                        caller: c.caller,
                        name: c.name,
                    },
                ),
                c.vals,
            ),
        ),
        s.tasks == o.tasks,
        s.values == o.values,
    ensures
        gives(o, jo, w, t, r),
{
    let j = Job::Apply {
        names: c.names,
        provided: c.provided,
        body: c.body,
        base: c.base,
        caller: c.caller,
        name: c.name,
    };
    let none = Seq::<Job>::empty();
    let nil = Seq::<Val>::empty();
    let z = on(s, none, c.vals);
    let bare = on(s, none, nil);
    assert(z.top_n(c.names.len()) =~= c.vals);
    assert(z.popped_n(c.names.len()).values =~= nil);
    assert(z.popped_n(c.names.len()) == bare);
    reveal(perform_call);
    assert(back(o, bare) == s);
    if s.setup.jit && c.name is Some {
        let wait = Job::AwaitJit(c);
        lemma_waiting(s, wait);
        reveal(resumed);
        assert(back(o, bare.task(wait)) == s);
        match (w.h)(wait, s.draws, s.modules) {
            Answer::Compiled { value: Some(v), draws } => {
                let end = (State { draws, ..bare }).value(v);
                lemma_asked(alone(o, jo), w, s, j, none, c.vals, end);
                assert(end.values =~= seq![v]);
                lemma_ends(o, jo, w, end, v);
                assert(back(o, end) == (State { draws, ..s }));
            },
            Answer::Compiled { value: None, draws } => {
                let s2 = State { draws, ..s };
                let bare2 = on(s2, none, nil);
                assert((State { draws, ..bare }) == bare2);
                assert(back(o, bare2) == s2);
                if s2.setup.memo {
                    let memo = Job::AwaitMemo(c);
                    lemma_waiting(s2, memo);
                    lemma_asked(alone(o, jo), w, s, j, none, c.vals, bare2.task(memo));
                    lemma_uncompiled(o, jo, s2, memo, nil, s2, c, w, t, r);
                } else if s2.live_calls >= MAX_CALL_DEPTH {
                    lemma_refused(
                        o,
                        jo,
                        w,
                        s,
                        j,
                        none,
                        c.vals,
                        bare2,
                        recursion_fault(c.name),
                    );
                } else {
                    lemma_asked(alone(o, jo), w, s, j, none, c.vals, enter(bare2, c, None).0);
                    lemma_entered(o, jo, s2, c, None, w, t, r);
                }
            },
            _ => {
                lemma_refused(o, jo, w, s, j, none, c.vals, bare.task(wait), misfit());
            },
        }
    } else {
        lemma_uncompiled(o, jo, s, j, c.vals, s, c, w, t, r);
    }
}

proof fn lemma_call(
    o: State,
    jo: Job,
    s: State,
    params: Seq<Parameter>,
    body: Expr,
    args: Seq<Arg>,
    caller: Scope,
    base: Scope,
    name: Option<Seq<char>>,
    this: Option<Val>,
    w: Around,
    t: State,
    r: Result<Val, Fault>,
)
    requires
        s.setup.budget is None,
        call_gives(s, params, body, args, caller, base, name, this, w, t, r),
        reaches(
            alone(o, jo),
            w,
            call_step(
                on(s, Seq::empty(), Seq::empty()),
                params,
                body,
                args,
                caller,
                base,
                name,
                this,
            ),
        ),
        s.tasks == o.tasks,
        s.values == o.values,
    ensures
        gives(o, jo, w, t, r),
{
    let m = matched(params, args, args.len());
    let xs = evals(extra_exprs(m), caller);
    let ps = sources(params, m, this, caller, base);
    let js = xs + ps;
    let nil = Seq::<Val>::empty();
    let kept = if m.extra.len() == 0 {
        name
    } else {
        None
    };
    let j = Job::Apply {
        names: call_names(params, m),
        provided: call_provided(params, m, this),
        body,
        base,
        caller,
        name: kept,
    };
    let y = call_step(on(s, Seq::empty(), nil), params, body, args, caller, base, name, this);
    assert(y.tasks =~= seq![j] + js.take(js.len() as int));
    assert(y == on(s, seq![j] + js.take(js.len() as int), nil));
    assert(self_contained(js));
    let (u, q) = choose|u: State, q: Result<Seq<Val>, Fault>|
        #[trigger] row_gives(s, js, js.len(), w, u, q) && match q {
            Err(x) => t == u && r == Err::<Val, Fault>(x),
            Ok(vs) => applied_gives(
                u,
                Entering {
                    names: call_names(params, m),
                    provided: call_provided(params, m, this),
                    vals: vs,
                    body,
                    base,
                    caller,
                    name: kept,
                },
                w,
                t,
                r,
            ),
        };
    match q {
        Err(x) => {
            lemma_row_fails(o, jo, s, js, js.len(), w, u, x, seq![j], nil);
        },
        Ok(vs) => {
            lemma_row(alone(o, jo), s, js, js.len(), w, u, vs, seq![j], nil);
            assert(nil + vs =~= vs);
            assert(seq![j] =~= Seq::<Job>::empty().push(j));
            assert(call_names(params, m).len() == params.len() + m.extra.len());
            lemma_applied(
                o,
                jo,
                u,
                Entering {
                    names: call_names(params, m),
                    provided: call_provided(params, m, this),
                    vals: vs,
                    body,
                    base,
                    caller,
                    name: kept,
                },
                w,
                t,
                r,
            );
        },
    }
}

/// A call by name of a function that the program defines, where no value bound below the top level
/// has that name and no native version stands in, gives what the call of its code does.
pub proof fn law_call_of_a_definition(
    s: State,
    e: Expr,
    scope: Scope,
    def: Def,
    w: Around,
    t: State,
    r: Result<Val, Fault>,
)
    requires
        s.setup.budget is None,
        e.kind is Call,
        e.kind->Call_callee.kind is Ident,
        local_function(s.store, scope, e.kind->Call_callee.kind->Ident_0@) is None,
        def_from(s.setup.functions, e.kind->Call_callee.kind->Ident_0@, 0) == Some(def),
        !known(s.setup.natives, def.name),
        call_gives(
            s,
            def.params,
            def.body,
            e.kind->Call_args@,
            scope,
            s.setup.globals[def.home as int],
            Some(def.name),
            None,
            w,
            t,
            r,
        ),
    ensures
        yields(s, e, scope, w, t, r),
{
    lemma_begins(s, e, scope, w);
    lemma_call(
        s,
        Job::Eval(e, scope),
        s,
        def.params,
        def.body,
        e.kind->Call_args@,
        scope,
        s.setup.globals[def.home as int],
        Some(def.name),
        None,
        w,
        t,
        r,
    );
}

/// What the call of a value gives.
pub open spec fn value_call_gives(
    s: State,
    callee: Val,
    args: Seq<Arg>,
    caller: Scope,
    w: Around,
    t: State,
    r: Result<Val, Fault>,
) -> bool {
    match callee {
        Val::Function { closure_id, env, self_name, repr, group, bound_this } => if closure_id
            < s.closures.len() && env.at < s.store.len() {
            let (st, base) = callee_base(s.store, callee, env, self_name, group);
            let code = s.closures[closure_id as int];
            call_gives(
                State { store: st, ..s },
                code.params,
                code.body,
                args,
                caller,
                base,
                None,
                match bound_this {
                    Some(ms) => Some(Val::Object(ms)),
                    None => None,
                },
                w,
                t,
                r,
            )
        } else {
            t == s && r == Ok::<Val, Fault>(Val::Undef)
        },
        _ => t == s && r == Ok::<Val, Fault>(Val::Undef),
    }
}

/// A run that has come to the call of what a part gives.
proof fn lemma_value_call(
    o: State,
    jo: Job,
    s: State,
    part: Job,
    u: State,
    q: Result<Val, Fault>,
    args: Seq<Arg>,
    caller: Scope,
    w: Around,
    t: State,
    r: Result<Val, Fault>,
)
    requires
        s.setup.budget is None,
        takes(part) == 0,
        reaches(
            alone(o, jo),
            w,
            on(s, seq![Job::CallValue { args, caller }, part], Seq::empty()),
        ),
        gives(s, part, w, u, q),
        match q {
            Err(x) => t == u && r == Err::<Val, Fault>(x),
            Ok(callee) => value_call_gives(u, callee, args, caller, w, t, r),
        },
        s.tasks == o.tasks,
        s.values == o.values,
    ensures
        gives(o, jo, w, t, r),
{
    let j = Job::CallValue { args, caller };
    let nil = Seq::<Val>::empty();
    let none = Seq::<Job>::empty();
    reveal(perform_call);
    lemma_over(o, jo, w, s, j, part, u, q);
    match q {
        Err(x) => {},
        Ok(callee) => {
            let z = on(u, none, seq![callee]);
            assert(z.popped().values =~= nil);
            let y = perform(z, j, w.f).0;
            match callee {
                Val::Function { closure_id, env, self_name, repr, group, bound_this } => {
                    if closure_id < u.closures.len() && env.at < u.store.len() {
                        let (st, base) = callee_base(u.store, callee, env, self_name, group);
                        let code = u.closures[closure_id as int];
                        let s2 = State { store: st, ..u };
                        assert((State { store: st, ..z.popped() }) == on(s2, none, nil));
                        lemma_call(
                            o,
                            jo,
                            s2,
                            code.params,
                            code.body,
                            args,
                            caller,
                            base,
                            None,
                            match bound_this {
                                Some(ms) => Some(Val::Object(ms)),
                                None => None,
                            },
                            w,
                            t,
                            r,
                        );
                    } else {
                        assert(y.values =~= seq![Val::Undef]);
                        lemma_ends(o, jo, w, y, Val::Undef);
                        assert(back(o, y) == u);
                    }
                },
                _ => {
                    assert(y.values =~= seq![Val::Undef]);
                    lemma_ends(o, jo, w, y, Val::Undef);
                    assert(back(o, y) == u);
                },
            }
        },
    }
}

/// A call of what an expression gives that is no name: a function value of this run is called in
/// what it captured, with its group and itself bound by name; calling anything else is `undef`.
pub proof fn law_call_of_a_value(
    s: State,
    e: Expr,
    scope: Scope,
    w: Around,
    u: State,
    q: Result<Val, Fault>,
    t: State,
    r: Result<Val, Fault>,
)
    requires
        s.setup.budget is None,
        e.kind is Call,
        !(e.kind->Call_callee.kind is Ident),
        yields(s, *e.kind->Call_callee, scope, w, u, q),
        match q {
            Err(x) => t == u && r == Err::<Val, Fault>(x),
            Ok(callee) => value_call_gives(u, callee, e.kind->Call_args@, scope, w, t, r),
        },
    ensures
        yields(s, e, scope, w, t, r),
{
    let args = e.kind->Call_args@;
    let part = Job::Eval(*e.kind->Call_callee, scope);
    let j = Job::CallValue { args, caller: scope };
    assert(node_step(on(s, Seq::empty(), Seq::empty()), e, scope).tasks =~= seq![j, part]);
    lemma_begins(s, e, scope, w);
    lemma_value_call(s, Job::Eval(e, scope), s, part, u, q, args, scope, w, t, r);
}

/// A call by name of a function value that is bound below the top level calls that value.
pub proof fn law_call_of_a_local_value(
    s: State,
    e: Expr,
    scope: Scope,
    callee: Val,
    w: Around,
    t: State,
    r: Result<Val, Fault>,
)
    requires
        s.setup.budget is None,
        e.kind is Call,
        e.kind->Call_callee.kind is Ident,
        local_function(s.store, scope, e.kind->Call_callee.kind->Ident_0@) == Some(callee),
        value_call_gives(s, callee, e.kind->Call_args@, scope, w, t, r),
    ensures
        yields(s, e, scope, w, t, r),
{
    let args = e.kind->Call_args@;
    let part = Job::Const(callee);
    let j = Job::CallValue { args, caller: scope };
    assert(node_step(on(s, Seq::empty(), Seq::empty()), e, scope).tasks =~= seq![j, part]);
    law_given_value(s, callee, w);
    lemma_begins(s, e, scope, w);
    lemma_value_call(s, Job::Eval(e, scope), s, part, s, Ok(callee), args, scope, w, t, r);
}

/// A call by name of a builtin, where neither a value bound below the top level nor a definition
/// has that name, gives what the host answers for the values of the arguments, which are evaluated
/// from left to right.
pub proof fn law_call_of_a_builtin(
    s: State,
    e: Expr,
    scope: Scope,
    w: Around,
    u: State,
    q: Result<Seq<Val>, Fault>,
)
    requires
        s.setup.budget is None,
        e.kind is Call,
        e.kind->Call_callee.kind is Ident,
        local_function(s.store, scope, e.kind->Call_callee.kind->Ident_0@) is None,
        def_from(s.setup.functions, e.kind->Call_callee.kind->Ident_0@, 0) is None,
        known(s.setup.builtins, e.kind->Call_callee.kind->Ident_0@),
        row_gives(
            s,
            evals(arg_exprs(e.kind->Call_args@), scope),
            e.kind->Call_args@.len(),
            w,
            u,
            q,
        ),
    ensures
        ({
            let name = e.kind->Call_callee.kind->Ident_0@;
            let args = e.kind->Call_args@;
            match q {
                Err(x) => yields(s, e, scope, w, u, Err(x)),
                Ok(vs) => match (w.h)(
                    Job::AwaitBuiltin { name, args, vals: vs },
                    u.draws,
                    u.modules,
                ) {
                    Answer::Built { value, lines, draws } => yields(
                        s,
                        e,
                        scope,
                        w,
                        State {
                            log: u.log + lines,
                            draws,
                            impure_reads: reads_after(name, u.impure_reads),
                            ..u
                        },
                        Ok(value),
                    ),
                    _ => yields(s, e, scope, w, u, Err(misfit())),
                },
            }
        }),
{
    let name = e.kind->Call_callee.kind->Ident_0@;
    let args = e.kind->Call_args@;
    let js = evals(arg_exprs(args), scope);
    let jo = Job::Eval(e, scope);
    let j = Job::Builtin { name, args };
    let nil = Seq::<Val>::empty();
    let none = Seq::<Job>::empty();
    lemma_begins(s, e, scope, w);
    assert(js.take(js.len() as int) =~= js);
    assert(node_step(on(s, none, nil), e, scope).tasks =~= none.push(j) + js);
    match q {
        Err(x) => {
            lemma_row_fails(s, jo, s, js, js.len(), w, u, x, none.push(j), nil);
        },
        Ok(vs) => {
            lemma_row(alone(s, jo), s, js, js.len(), w, u, vs, none.push(j), nil);
            assert(nil + vs =~= vs);
            let z = on(u, none, vs);
            assert(z.top_n(args.len()) =~= vs);
            reveal(perform_call);
            reveal(resumed);
            let y = perform(z, j, w.f).0;
            let wait = Job::AwaitBuiltin { name, args, vals: vs };
            assert(y.tasks =~= seq![wait]);
            assert(y.tasks.drop_last() =~= none);
            assert(y.values =~= nil);
            match (w.h)(wait, u.draws, u.modules) {
                Answer::Built { value, lines, draws } => {
                    let end = (State {
                        log: u.log + lines,
                        draws,
                        impure_reads: reads_after(name, u.impure_reads),
                        ..on(u, none, nil)
                    }).value(value);
                    lemma_asked(alone(s, jo), w, u, j, none, vs, end);
                    assert(end.values =~= seq![value]);
                    lemma_ends(s, jo, w, end, value);
                    assert(back(s, end) == (State {
                        log: u.log + lines,
                        draws,
                        impure_reads: reads_after(name, u.impure_reads),
                        ..u
                    }));
                },
                _ => {
                    lemma_refused(s, jo, w, u, j, none, vs, y, misfit());
                    assert(back(s, y) == u);
                },
            }
        },
    }
}

/// A call by name of something that is no local function value, no definition and no builtin, and
/// that means nothing or `undef`, is `undef`, with a warning.
pub proof fn law_call_of_an_unknown_name(s: State, e: Expr, scope: Scope, w: Around)
    requires
        s.setup.budget is None,
        e.kind is Call,
        e.kind->Call_callee.kind is Ident,
        local_function(s.store, scope, e.kind->Call_callee.kind->Ident_0@) is None,
        def_from(s.setup.functions, e.kind->Call_callee.kind->Ident_0@, 0) is None,
        !known(s.setup.builtins, e.kind->Call_callee.kind->Ident_0@),
        ({
            let m = meaning(s.store, scope, e.kind->Call_callee.kind->Ident_0@);
            m is None || m == Some(Val::Undef)
        }),
    ensures
        ({
            let name = e.kind->Call_callee.kind->Ident_0@;
            yields(
                s,
                e,
                scope,
                w,
                read(s, scope, name).1.say(
                    Line::Warning("Ignoring unknown function '"@ + name + "'"@),
                ),
                Ok(Val::Undef),
            )
        }),
{
    let name = e.kind->Call_callee.kind->Ident_0@;
    let none = Seq::<Job>::empty();
    let nil = Seq::<Val>::empty();
    let line = Line::Warning("Ignoring unknown function '"@ + name + "'"@);
    let t = read(s, scope, name).1.say(line);
    lemma_begins(s, e, scope, w);
    let y = node_step(on(s, none, nil), e, scope);
    assert(y.tasks =~= seq![Job::Const(Val::Undef)]);
    assert(y == on(t, seq![Job::Const(Val::Undef)], nil));
    law_given_value(t, Val::Undef, w);
    lemma_tail(s, Job::Eval(e, scope), w, t, Job::Const(Val::Undef), t, Ok(Val::Undef));
}

/// A call by name of something that is no local function value, no definition and no builtin, but
/// that means a value, calls that value.
pub proof fn law_call_of_a_named_value(
    s: State,
    e: Expr,
    scope: Scope,
    w: Around,
    u: State,
    q: Result<Val, Fault>,
    t: State,
    r: Result<Val, Fault>,
)
    requires
        s.setup.budget is None,
        e.kind is Call,
        e.kind->Call_callee.kind is Ident,
        local_function(s.store, scope, e.kind->Call_callee.kind->Ident_0@) is None,
        def_from(s.setup.functions, e.kind->Call_callee.kind->Ident_0@, 0) is None,
        !known(s.setup.builtins, e.kind->Call_callee.kind->Ident_0@),
        ({
            let m = meaning(s.store, scope, e.kind->Call_callee.kind->Ident_0@);
            m is Some && m != Some(Val::Undef)
        }),
        yields(
            read(s, scope, e.kind->Call_callee.kind->Ident_0@).1,
            *e.kind->Call_callee,
            scope,
            w,
            u,
            q,
        ),
        match q {
            Err(x) => t == u && r == Err::<Val, Fault>(x),
            Ok(callee) => value_call_gives(u, callee, e.kind->Call_args@, scope, w, t, r),
        },
    ensures
        yields(s, e, scope, w, t, r),
{
    let args = e.kind->Call_args@;
    let part = Job::Eval(*e.kind->Call_callee, scope);
    let j = Job::CallValue { args, caller: scope };
    let s2 = read(s, scope, e.kind->Call_callee.kind->Ident_0@).1;
    let y = node_step(on(s, Seq::empty(), Seq::empty()), e, scope);
    assert(y.tasks =~= seq![j, part]);
    assert(y == on(s2, seq![j, part], Seq::empty()));
    lemma_begins(s, e, scope, w);
    lemma_value_call(s, Job::Eval(e, scope), s2, part, u, q, args, scope, w, t, r);
}

/// The tasks that evaluate what a native function is handed: the arguments that there are
/// parameters for, where all are positional, and otherwise a value for each parameter.
pub open spec fn native_parts(s: State, def: Def, args: Seq<Arg>, scope: Scope) -> Seq<Job> {
    if all_positional(args) {
        evals(
            arg_exprs(args).take(
                if args.len() < def.params.len() {
                    args.len() as int
                } else {
                    def.params.len() as int
                },
            ),
            scope,
        )
    } else {
        sources(
            def.params,
            matched(def.params, args, args.len()),
            None,
            scope,
            s.setup.globals[def.home as int],
        )
    }
}

/// A call by name of a definition that has a native version gives what the host answers for the
/// values it is handed; unless an argument would be bound beside the parameters.
pub proof fn law_call_of_a_native(
    s: State,
    e: Expr,
    scope: Scope,
    def: Def,
    w: Around,
    u: State,
    q: Result<Seq<Val>, Fault>,
)
    requires
        s.setup.budget is None,
        e.kind is Call,
        e.kind->Call_callee.kind is Ident,
        local_function(s.store, scope, e.kind->Call_callee.kind->Ident_0@) is None,
        def_from(s.setup.functions, e.kind->Call_callee.kind->Ident_0@, 0) == Some(def),
        known(s.setup.natives, def.name),
        all_positional(e.kind->Call_args@) || matched(
            def.params,
            e.kind->Call_args@,
            e.kind->Call_args@.len(),
        ).extra.len() == 0,
        ({
            let js = native_parts(s, def, e.kind->Call_args@, scope);
            row_gives(s, js, js.len(), w, u, q)
        }),
    ensures
        match q {
            Err(x) => yields(s, e, scope, w, u, Err(x)),
            Ok(vs) => match (w.h)(
                Job::AwaitNative { name: def.name, vals: vs },
                u.draws,
                u.modules,
            ) {
                Answer::Native(a) => a != Err::<Val, Fault>(Fault::Unfinished) ==> yields(
                    s,
                    e,
                    scope,
                    w,
                    u,
                    a,
                ),
                _ => yields(s, e, scope, w, u, Err(misfit())),
            },
        },
{
    let args = e.kind->Call_args@;
    let js = native_parts(s, def, args, scope);
    let jo = Job::Eval(e, scope);
    let j = Job::Native { name: def.name, nargs: js.len() };
    let nil = Seq::<Val>::empty();
    let none = Seq::<Job>::empty();
    lemma_begins(s, e, scope, w);
    assert(js.take(js.len() as int) =~= js);
    let y0 = node_step(on(s, none, nil), e, scope);
    assert(y0.tasks =~= none.push(j) + js);
    assert(self_contained(js));
    match q {
        Err(x) => {
            lemma_row_fails(s, jo, s, js, js.len(), w, u, x, none.push(j), nil);
        },
        Ok(vs) => {
            lemma_row(alone(s, jo), s, js, js.len(), w, u, vs, none.push(j), nil);
            assert(nil + vs =~= vs);
            let z = on(u, none, vs);
            assert(z.top_n(js.len()) =~= vs);
            reveal(perform_call);
            reveal(resumed);
            let y = perform(z, j, w.f).0;
            let wait = Job::AwaitNative { name: def.name, vals: vs };
            assert(y.tasks =~= seq![wait]);
            assert(y.tasks.drop_last() =~= none);
            assert(y.values =~= nil);
            let bare = on(u, none, nil);
            assert(back(s, bare) == u);
            assert(back(s, y) == u);
            match (w.h)(wait, u.draws, u.modules) {
                Answer::Native(a) => match a {
                    Ok(v) => {
                        let end = bare.value(v);
                        lemma_asked(alone(s, jo), w, u, j, none, vs, end);
                        assert(end.values =~= seq![v]);
                        lemma_ends(s, jo, w, end, v);
                        assert(back(s, end) == u);
                    },
                    Err(x) => {
                        if x != Fault::Unfinished {
                            lemma_refused(s, jo, w, u, j, none, vs, bare, x);
                        }
                    },
                },
                _ => {
                    lemma_refused(s, jo, w, u, j, none, vs, y, misfit());
                },
            }
        },
    }
}

/// A function literal is a new function value that captures the scope.
pub proof fn law_function_literal(s: State, e: Expr, scope: Scope, w: Around)
    requires
        s.setup.budget is None,
        e.kind is FunctionLiteral,
    ensures
        yields(
            s,
            e,
            scope,
            w,
            State {
                closures: s.closures.push(
                    Code {
                        params: e.kind->FunctionLiteral_params@,
                        body: *e.kind->FunctionLiteral_body,
                    },
                ),
                ..s
            },
            Ok(
                Val::Function {
                    closure_id: s.closures.len() as usize,
                    env: scope,
                    self_name: None,
                    repr: e.kind->FunctionLiteral_repr@,
                    group: None,
                    bound_this: None,
                },
            ),
        ),
{
    lemma_begins(s, e, scope, w);
    let v = Val::Function {
        closure_id: s.closures.len() as usize,
        env: scope,
        self_name: None,
        repr: e.kind->FunctionLiteral_repr@,
        group: None,
        bound_this: None,
    };
    let y = node_step(on(s, Seq::empty(), Seq::empty()), e, scope);
    assert(y.values =~= seq![v]);
    lemma_ends(s, Job::Eval(e, scope), w, y, v);
    assert(back(s, y) == (State {
        closures: s.closures.push(
            Code { params: e.kind->FunctionLiteral_params@, body: *e.kind->FunctionLiteral_body },
        ),
        ..s
    }));
}

/// The tasks that evaluate the bounds of a range: its start, then its step where it has one, then
/// its end.
pub open spec fn range_parts(start: Expr, step: Option<Expr>, end: Expr, scope: Scope) -> Seq<Job> {
    match step {
        Some(p) => seq![Job::Eval(end, scope), Job::Eval(p, scope), Job::Eval(start, scope)],
        None => seq![Job::Eval(end, scope), Job::Eval(start, scope)],
    }
}

/// A range is made of what its bounds give, its step being one where it has none.
pub proof fn law_range(
    s: State,
    e: Expr,
    scope: Scope,
    w: Around,
    t: State,
    r: Result<Seq<Val>, Fault>,
)
    requires
        s.setup.budget is None,
        e.kind is Range,
        ({
            let js = range_parts(
                *e.kind->Range_start,
                match e.kind->Range_step {
                    Some(p) => Some(*p),
                    None => None,
                },
                *e.kind->Range_end,
                scope,
            );
            row_gives(s, js, js.len(), w, t, r)
        }),
    ensures
        match r {
            Err(x) => yields(s, e, scope, w, t, Err(x)),
            Ok(vs) => yields(
                s,
                e,
                scope,
                w,
                t,
                Ok(
                    if e.kind->Range_step is Some {
                        range_of(vs[0], vs[1], vs[2])
                    } else {
                        range_of(vs[0], Val::Num(ONE), vs[1])
                    },
                ),
            ),
        },
{
    let stepped = e.kind->Range_step is Some;
    let js = range_parts(
        *e.kind->Range_start,
        match e.kind->Range_step {
            Some(p) => Some(*p),
            None => None,
        },
        *e.kind->Range_end,
        scope,
    );
    let jo = Job::Eval(e, scope);
    let j = Job::Range { stepped };
    let nil = Seq::<Val>::empty();
    let none = Seq::<Job>::empty();
    lemma_begins(s, e, scope, w);
    assert(js.take(js.len() as int) =~= js);
    assert(node_step(on(s, none, nil), e, scope).tasks =~= none.push(j) + js);
    match r {
        Err(x) => {
            lemma_row_fails(s, jo, s, js, js.len(), w, t, x, none.push(j), nil);
        },
        Ok(vs) => {
            lemma_row(alone(s, jo), s, js, js.len(), w, t, vs, none.push(j), nil);
            assert(nil + vs =~= vs);
            reveal(perform_plain);
            lemma_do(alone(s, jo), t, j, w, none, vs);
            let z = on(t, none, vs);
            let y = perform(z, j, w.f).0;
            let v = if stepped {
                range_of(vs[0], vs[1], vs[2])
            } else {
                range_of(vs[0], Val::Num(ONE), vs[1])
            };
            assert(y.values =~= seq![v]);
            lemma_ends(s, jo, w, y, v);
            assert(back(s, y) == t);
        },
    }
}

/// What the body of an `echo` or an assertion gives; `undef` where there is none.
pub open spec fn body_gives(
    s: State,
    body: Option<Expr>,
    scope: Scope,
    w: Around,
    t: State,
    r: Result<Val, Fault>,
) -> bool {
    match body {
        Some(b) => yields(s, b, scope, w, t, r),
        None => t == s && r == Ok::<Val, Fault>(Val::Undef),
    }
}

proof fn lemma_body(
    o: State,
    jo: Job,
    s: State,
    body: Option<Expr>,
    scope: Scope,
    w: Around,
    t: State,
    r: Result<Val, Fault>,
)
    requires
        body_gives(s, body, scope, w, t, r),
        reaches(
            alone(o, jo),
            w,
            body_step(on(s, Seq::empty(), Seq::empty()), body, scope),
        ),
        s.tasks == o.tasks,
        s.values == o.values,
    ensures
        gives(o, jo, w, t, r),
{
    let y = body_step(on(s, Seq::empty(), Seq::empty()), body, scope);
    match body {
        Some(b) => {
            let part = Job::Eval(b, scope);
            assert(y.tasks =~= seq![part]);
            assert(y == on(s, seq![part], Seq::empty()));
            lemma_tail(o, jo, w, s, part, t, r);
        },
        None => {
            assert(y.values =~= seq![Val::Undef]);
            lemma_ends(o, jo, w, y, Val::Undef);
            assert(back(o, y) == s);
        },
    }
}

/// What an `echo` gives once the values of its arguments are known: nothing but a failure where
/// they nest too deep; otherwise a line on the console with the texts that the host answers, and
/// then what its body gives.
pub open spec fn echo_gives(
    s: State,
    args: Seq<Arg>,
    body: Option<Expr>,
    scope: Scope,
    vs: Seq<Val>,
    w: Around,
    t: State,
    r: Result<Val, Fault>,
) -> bool {
    if too_deep(vs) {
        t == s && r == Err::<Val, Fault>(too_deep_fault())
    } else {
        match (w.h)(Job::AwaitEcho { args, body, scope, vals: vs }, s.draws, s.modules) {
            Answer::Texts(ts) => body_gives(
                s.say(Line::Echo(echo_text(args, ts, shown_count(args, ts)))),
                body,
                scope,
                w,
                t,
                r,
            ),
            _ => t == s && r == Err::<Val, Fault>(misfit()),
        }
    }
}

/// An `echo` evaluates its arguments from left to right, puts them on the console and gives what
/// its body gives.
pub proof fn law_echo(
    s: State,
    e: Expr,
    scope: Scope,
    w: Around,
    u: State,
    q: Result<Seq<Val>, Fault>,
    t: State,
    r: Result<Val, Fault>,
)
    requires
        s.setup.budget is None,
        e.kind is Echo,
        row_gives(
            s,
            evals(arg_exprs(e.kind->Echo_args@), scope),
            e.kind->Echo_args@.len(),
            w,
            u,
            q,
        ),
        match q {
            Err(x) => t == u && r == Err::<Val, Fault>(x),
            Ok(vs) => echo_gives(
                u,
                e.kind->Echo_args@,
                match e.kind->Echo_body {
                    Some(b) => Some(*b),
                    None => None,
                },
                scope,
                vs,
                w,
                t,
                r,
            ),
        },
    ensures
        yields(s, e, scope, w, t, r),
{
    let args = e.kind->Echo_args@;
    let body = match e.kind->Echo_body {
        Some(b) => Some(*b),
        None => None,
    };
    let js = evals(arg_exprs(args), scope);
    let jo = Job::Eval(e, scope);
    let j = Job::EchoEmit { args, body, scope };
    let nil = Seq::<Val>::empty();
    let none = Seq::<Job>::empty();
    lemma_begins(s, e, scope, w);
    assert(js.take(js.len() as int) =~= js);
    assert(node_step(on(s, none, nil), e, scope).tasks =~= none.push(j) + js);
    match q {
        Err(x) => {
            lemma_row_fails(s, jo, s, js, js.len(), w, u, x, none.push(j), nil);
        },
        Ok(vs) => {
            lemma_row(alone(s, jo), s, js, js.len(), w, u, vs, none.push(j), nil);
            assert(nil + vs =~= vs);
            let z = on(u, none, vs);
            assert(z.top_n(args.len()) =~= vs);
            assert(z.popped_n(args.len()).values =~= nil);
            assert(z.popped_n(args.len()) == on(u, none, nil));
            reveal(perform_console);
            if too_deep(vs) {
                lemma_stops(s, jo, w, u, j, too_deep_fault(), none, vs);
                assert(back(s, on(u, none, nil)) == u);
            } else {
                reveal(resumed);
                let wait = Job::AwaitEcho { args, body, scope, vals: vs };
                let y = perform(z, j, w.f).0;
                assert(y.tasks =~= seq![wait]);
                assert(y.tasks.drop_last() =~= none);
                match (w.h)(wait, u.draws, u.modules) {
                    Answer::Texts(ts) => {
                        let line = Line::Echo(echo_text(args, ts, shown_count(args, ts)));
                        let end = body_step(on(u.say(line), none, nil), body, scope);
                        lemma_asked(alone(s, jo), w, u, j, none, vs, end);
                        lemma_body(s, jo, u.say(line), body, scope, w, t, r);
                    },
                    _ => {
                        lemma_refused(s, jo, w, u, j, none, vs, y, misfit());
                        assert(back(s, y) == u);
                    },
                }
            }
        },
    }
}

/// What an assertion gives once it is known whether it passed, and its message where it has one.
pub open spec fn verdict_gives(
    s: State,
    passed: bool,
    message: Option<Val>,
    body: Option<Expr>,
    shown: Seq<char>,
    scope: Scope,
    w: Around,
    t: State,
    r: Result<Val, Fault>,
) -> bool {
    if passed {
        body_gives(s, body, scope, w, t, r)
    } else {
        t == s && r == Err::<Val, Fault>(
            match message {
                None => assert_fault(None, shown),
                Some(Val::Str(x)) => assert_fault(Some(x), shown),
                Some(v) => match (w.h)(Job::AwaitAssert { value: v, shown }, s.draws, s.modules) {
                    Answer::Texts(ts) => if ts.len() > 0 {
                        assert_fault(Some(ts[0]), shown)
                    } else {
                        misfit()
                    },
                    _ => misfit(),
                },
            },
        )
    }
}

/// What an assertion gives once it is known whether it passed: its message is evaluated either
/// way, and does not count as an impure read.
pub open spec fn judged_gives(
    s: State,
    passed: bool,
    msg: Option<Expr>,
    body: Option<Expr>,
    shown: Seq<char>,
    scope: Scope,
    w: Around,
    t: State,
    r: Result<Val, Fault>,
) -> bool {
    match msg {
        None => verdict_gives(s, passed, None, body, shown, scope, w, t, r),
        Some(m) => exists|u: State, q: Result<Val, Fault>|
            #[trigger] yields(s, m, scope, w, u, q) && match q {
                Err(x) => t == u && r == Err::<Val, Fault>(x),
                Ok(v) => verdict_gives(
                    State { impure_reads: s.impure_reads, ..u },
                    passed,
                    Some(v),
                    body,
                    shown,
                    scope,
                    w,
                    t,
                    r,
                ),
            },
    }
}

/// A run that has come to the verdict of an assertion, the task `j` with the values `vs`.
proof fn lemma_verdict(
    o: State,
    jo: Job,
    s: State,
    j: Job,
    vs: Seq<Val>,
    s2: State,
    passed: bool,
    message: Option<Val>,
    body: Option<Expr>,
    shown: Seq<char>,
    scope: Scope,
    w: Around,
    t: State,
    r: Result<Val, Fault>,
)
    requires
        s.setup.budget is None,
        reaches(alone(o, jo), w, on(s, Seq::empty().push(j), vs)),
        perform(on(s, Seq::empty(), vs), j, w.f) == verdict_step(
            on(s2, Seq::empty(), Seq::empty()),
            passed,
            message,
            body,
            shown,
            scope,
        ),
        verdict_gives(s2, passed, message, body, shown, scope, w, t, r),
        s2.tasks == o.tasks,
        s2.values == o.values,
    ensures
        gives(o, jo, w, t, r),
{
    let nil = Seq::<Val>::empty();
    let none = Seq::<Job>::empty();
    let bare = on(s2, none, nil);
    assert(back(o, bare) == s2);
    if passed {
        lemma_do(alone(o, jo), s, j, w, none, vs);
        lemma_body(o, jo, s2, body, scope, w, t, r);
    } else {
        match message {
            None => {
                lemma_stops(o, jo, w, s, j, assert_fault(None, shown), none, vs);
            },
            Some(Val::Str(x)) => {
                lemma_stops(o, jo, w, s, j, assert_fault(Some(x), shown), none, vs);
            },
            Some(v) => {
                reveal(resumed);
                let wait = Job::AwaitAssert { value: v, shown };
                let y = bare.task(wait);
                assert(y.tasks =~= seq![wait]);
                assert(y.tasks.drop_last() =~= none);
                assert(back(o, y) == s2);
                match (w.h)(wait, s2.draws, s2.modules) {
                    Answer::Texts(ts) => {
                        if ts.len() > 0 {
                            let x = assert_fault(Some(ts[0]), shown);
                            lemma_refused(o, jo, w, s, j, none, vs, bare, x);
                        } else {
                            lemma_refused(o, jo, w, s, j, none, vs, y, misfit());
                        }
                    },
                    _ => {
                        lemma_refused(o, jo, w, s, j, none, vs, y, misfit());
                    },
                }
            },
        }
    }
}

/// A run that has come to the check of an assertion, with the value of its condition where it has
/// one.
proof fn lemma_judged(
    o: State,
    jo: Job,
    s: State,
    cond: Option<Val>,
    msg: Option<Expr>,
    body: Option<Expr>,
    shown: Seq<char>,
    scope: Scope,
    w: Around,
    t: State,
    r: Result<Val, Fault>,
)
    requires
        s.setup.budget is None,
        reaches(
            alone(o, jo),
            w,
            on(
                s,
                Seq::empty().push(
                    Job::AssertCheck { cond: cond is Some, msg, body, shown, scope },
                ),
                match cond {
                    Some(v) => seq![v],
                    None => Seq::empty(),
                },
            ),
        ),
        judged_gives(
            s,
            match cond {
                Some(v) => truthy(v),
                None => false,
            },
            msg,
            body,
            shown,
            scope,
            w,
            t,
            r,
        ),
        s.tasks == o.tasks,
        s.values == o.values,
    ensures
        gives(o, jo, w, t, r),
{
    let nil = Seq::<Val>::empty();
    let none = Seq::<Job>::empty();
    let j = Job::AssertCheck { cond: cond is Some, msg, body, shown, scope };
    let vs = match cond {
        Some(v) => seq![v],
        None => nil,
    };
    let passed = match cond {
        Some(v) => truthy(v),
        None => false,
    };
    let z = on(s, none, vs);
    let bare = on(s, none, nil);
    reveal(perform_console);
    if cond is Some {
        assert(z.popped().values =~= nil);
        assert(z.popped() == bare);
    }
    match msg {
        None => {
            lemma_verdict(o, jo, s, j, vs, s, passed, None, body, shown, scope, w, t, r);
        },
        Some(m) => {
            let k = Job::AssertVerdict {
                passed,
                impure_before: s.impure_reads,
                body,
                shown,
                scope,
            };
            let part = Job::Eval(m, scope);
            lemma_do(alone(o, jo), s, j, w, none, vs);
            let y = perform(z, j, w.f).0;
            assert(y.tasks =~= none.push(k).push(part));
            assert(y == on(s, none.push(k).push(part), nil));
            let (u, q) = choose|u: State, q: Result<Val, Fault>|
                #[trigger] yields(s, m, scope, w, u, q) && match q {
                    Err(x) => t == u && r == Err::<Val, Fault>(x),
                    Ok(v) => verdict_gives(
                        State { impure_reads: s.impure_reads, ..u },
                        passed,
                        Some(v),
                        body,
                        shown,
                        scope,
                        w,
                        t,
                        r,
                    ),
                };
            match q {
                Err(x) => {
                    lemma_fails(o, jo, w, s, part, u, x, none.push(k), nil);
                },
                Ok(v) => {
                    lemma_then(alone(o, jo), s, part, w, u, v, none.push(k), nil);
                    let vv = nil.push(v);
                    let s2 = State { impure_reads: s.impure_reads, ..u };
                    assert(on(u, none, vv).popped().values =~= nil);
                    assert((State { impure_reads: s.impure_reads, ..on(u, none, vv).popped() })
                        == on(s2, none, nil));
                    lemma_verdict(
                        o,
                        jo,
                        u,
                        k,
                        vv,
                        s2,
                        passed,
                        Some(v),
                        body,
                        shown,
                        scope,
                        w,
                        t,
                        r,
                    );
                },
            }
        },
    }
}

/// An assertion evaluates its condition, then its message. It passes where its condition is there
/// and true, and then gives what its body gives; otherwise it fails.
pub proof fn law_assert(
    s: State,
    e: Expr,
    scope: Scope,
    w: Around,
    u: State,
    q: Result<Val, Fault>,
    t: State,
    r: Result<Val, Fault>,
)
    requires
        s.setup.budget is None,
        e.kind is Assert,
        ({
            let parts = assert_parts(e.kind->Assert_args@, e.kind->Assert_args@.len());
            let body = match e.kind->Assert_body {
                Some(b) => Some(*b),
                None => None,
            };
            let shown = e.kind->Assert_shown@;
            match parts.cond {
                None => judged_gives(s, false, parts.msg, body, shown, scope, w, t, r),
                Some(c) => yields(s, c, scope, w, u, q) && match q {
                    Err(x) => t == u && r == Err::<Val, Fault>(x),
                    Ok(v) => judged_gives(u, truthy(v), parts.msg, body, shown, scope, w, t, r),
                },
            }
        }),
    ensures
        yields(s, e, scope, w, t, r),
{
    let parts = assert_parts(e.kind->Assert_args@, e.kind->Assert_args@.len());
    let body = match e.kind->Assert_body {
        Some(b) => Some(*b),
        None => None,
    };
    let shown = e.kind->Assert_shown@;
    let jo = Job::Eval(e, scope);
    let nil = Seq::<Val>::empty();
    let none = Seq::<Job>::empty();
    let j = Job::AssertCheck { cond: parts.cond is Some, msg: parts.msg, body, shown, scope };
    lemma_begins(s, e, scope, w);
    let y = node_step(on(s, none, nil), e, scope);
    match parts.cond {
        None => {
            assert(y == on(s, none.push(j), nil));
            lemma_judged(s, jo, s, None, parts.msg, body, shown, scope, w, t, r);
        },
        Some(c) => {
            let part = Job::Eval(c, scope);
            assert(y == on(s, none.push(j).push(part), nil));
            match q {
                Err(x) => {
                    lemma_fails(s, jo, w, s, part, u, x, none.push(j), nil);
                },
                Ok(v) => {
                    lemma_then(alone(s, jo), s, part, w, u, v, none.push(j), nil);
                    assert(nil.push(v) =~= seq![v]);
                    lemma_judged(s, jo, u, Some(v), parts.msg, body, shown, scope, w, t, r);
                },
            }
        },
    }
}

/// A remembered value stands for its call: where evaluating the call would give that very value and
/// leave the counters as they were, which is what is asked of a value before it is offered for
/// remembering, a call that is answered by the remembered value gives the same. It leaves the state
/// as it was; and evaluating it would have put nothing on the console, made no function, drawn no
/// random number and changed nothing of what it was set up with.
pub proof fn law_a_true_memory_stands_for_its_call(
    s: State,
    c: Entering,
    w: Around,
    u: State,
    v: Val,
)
    requires
        s.setup.memo,
        (w.h)(Job::AwaitMemo(c), s.draws, s.modules) matches Answer::Memo { hit, .. } && hit == Some(
            v,
        ),
        entered_gives(s, c, w, u, Ok(v)),
        snap_of(u) == snap_of(s),
        u.log.len() <= usize::MAX,
        u.closures.len() <= usize::MAX,
    ensures
        uncompiled_gives(s, c, w, s, Ok(v)),
        u.log == s.log,
        u.closures == s.closures,
        u.draws == s.draws,
        u.impure_reads == s.impure_reads,
        u.modules == s.modules,
        u.setup == s.setup,
        grows(s.store, u.store),
{
    let (st, inner) = call_scope(s.store, c);
    let s2 = State { store: st, live_calls: (s.live_calls + 1) as u32, ..s };
    let ended = choose|x: State|
        #[trigger] yields(s2, c.body, inner, w, x, Ok(v)) && u == returned(x);
    let j = Job::Eval(c.body, inner);
    let n = choose|n: nat| #[trigger] ends_at(s2, j, w, n, ended, Ok(v));
    law_run_takes_nothing_back(alone(s2, j), w.f, w.h, n);
    law_run_keeps_bindings(alone(s2, j), w.f, w.h, n);
    lemma_call_scope_grows(s.store, c);
    lemma_grows_trans(s.store, st, u.store);
    assert(continues(s, u));
    law_equal_counters_mean_no_effect(s, u);
}

}

//! Laws of what expressions read and call: what they do not read does not count, and what they bind is not read.

use vstd::prelude::*;

use crate::analysis::{
    bound_by, called, called_args, called_defaults, called_items, free, free_args, free_bindings, free_defaults,
    free_items, param_names, reach_of,
};
use crate::ast::{special, Arg, Expr, ExprKind, Parameter};
use crate::meaning::{
    arg_values, contributed, contributions, loop_count, loop_values, turn_values, value_of, vars_after, Held, World,
};
use crate::names::name_set;
use crate::value::Val;

verus! {

/// Whether two sets of variables agree on the names that are bound, on the names that are read, and on `$`-names.
pub open spec fn alike(x: Held, y: Held, b: Set<Seq<char>>, reads: Set<Seq<char>>) -> bool {
    forall|name: Seq<char>|
        b.contains(name) || reads.contains(name) || special(name) ==> (#[trigger] x.contains_key(name)) == y.contains_key(
            name,
        ) && x[name] == y[name]
}

/// Whether functions do the same in two worlds, as far as they are called.
pub open spec fn calls_alike(v: World, w: World, calls: Set<Seq<char>>) -> bool {
    &&& v.f == w.f
    &&& v.items == w.items
    &&& forall|name: Seq<char>, args: Seq<(Option<Seq<char>>, Val)>|
        calls.contains(name) || special(name) ==> #[trigger] (v.apply)(name, args) == (w.apply)(name, args)
}

/// An expression comes to the same whatever the names mean that it does not read, and whatever the functions do that it
/// does not call.
#[verifier::spinoff_prover]
#[verifier::rlimit(60)]
pub proof fn law_unread_names_do_not_count(e: Expr, b: Set<Seq<char>>, x: Held, y: Held, v: World, w: World)
    requires
        alike(x, y, b, free(e, b)),
        calls_alike(v, w, called(e)),
    ensures
        value_of(e, x, v) == value_of(e, y, w),
    decreases e, 0nat, 0nat, 0nat,
{
    match e.kind {
        ExprKind::Ident(name) => {
            assert(x.contains_key(name@) == y.contains_key(name@));
        },
        ExprKind::Unary { op, operand } => {
            law_unread_names_do_not_count(*operand, b, x, y, v, w);
        },
        ExprKind::Binary { op, lhs, rhs } => {
            law_unread_names_do_not_count(*lhs, b, x, y, v, w);
            law_unread_names_do_not_count(*rhs, b, x, y, v, w);
        },
        ExprKind::Ternary { cond, yes, no } => {
            law_unread_names_do_not_count(*cond, b, x, y, v, w);
            law_unread_names_do_not_count(*yes, b, x, y, v, w);
            law_unread_names_do_not_count(*no, b, x, y, v, w);
        },
        ExprKind::Index { base, index } => {
            law_unread_names_do_not_count(*base, b, x, y, v, w);
            law_unread_names_do_not_count(*index, b, x, y, v, w);
        },
        ExprKind::Member { base, field } => {
            law_unread_names_do_not_count(*base, b, x, y, v, w);
        },
        ExprKind::Let { bindings, body } => {
            let n = bindings@.len();
            lemma_bindings_alike(bindings@, n, b, x, y, free(*body, bound_by(bindings@, n, b)), v, w);
            match (vars_after(bindings@, n, x, v), vars_after(bindings@, n, y, w)) {
                (Some(p), Some(q)) => {
                    law_unread_names_do_not_count(*body, bound_by(bindings@, n, b), p, q, v, w);
                },
                _ => {},
            }
        },
        ExprKind::Assert { args, body, .. } => {
            if args@.len() > 0 {
                lemma_first_arg(args@, args@.len(), b);
                law_unread_names_do_not_count(args@[0].value, b, x, y, v, w);
            }
            if let Some(z) = body {
                law_unread_names_do_not_count(*z, b, x, y, v, w);
            }
        },
        ExprKind::Range { start, step, end } => {
            law_unread_names_do_not_count(*start, b, x, y, v, w);
            if let Some(p) = step {
                law_unread_names_do_not_count(*p, b, x, y, v, w);
            }
            law_unread_names_do_not_count(*end, b, x, y, v, w);
        },
        ExprKind::Vector(items) => {
            lemma_items_alike(items@, items@.len(), b, x, y, v, w);
        },
        ExprKind::Call { callee, args } => {
            if let ExprKind::Ident(name) = callee.kind {
                lemma_args_alike(args@, args@.len(), b, x, y, v, w);
                if let Some(xs) = arg_values(args@, args@.len(), x, v) {
                    assert((v.apply)(name@, xs) == (w.apply)(name@, xs));
                }
            }
        },
        _ => {},
    }
}

proof fn lemma_first_arg(args: Seq<Arg>, n: nat, b: Set<Seq<char>>)
    requires
        0 < n <= args.len(),
    ensures
        free(args[0].value, b).subset_of(free_args(args, n, b)),
        called(args[0].value).subset_of(called_args(args, n)),
    decreases n,
{
    if n > 1 {
        lemma_first_arg(args, (n - 1) as nat, b);
    }
}

proof fn lemma_args_alike(args: Seq<Arg>, n: nat, b: Set<Seq<char>>, x: Held, y: Held, v: World, w: World)
    requires
        n <= args.len(),
        alike(x, y, b, free_args(args, n, b)),
        calls_alike(v, w, called_args(args, n)),
    ensures
        arg_values(args, n, x, v) == arg_values(args, n, y, w),
    decreases args, n, 0nat, 0nat,
{
    if n > 0 {
        lemma_args_alike(args, (n - 1) as nat, b, x, y, v, w);
        law_unread_names_do_not_count(args[n - 1].value, b, x, y, v, w);
    }
}

proof fn lemma_items_alike(es: Seq<Expr>, n: nat, b: Set<Seq<char>>, x: Held, y: Held, v: World, w: World)
    requires
        n <= es.len(),
        alike(x, y, b, free_items(es, n, b)),
        calls_alike(v, w, called_items(es, n)),
    ensures
        contributions(es, n, x, v) == contributions(es, n, y, w),
    decreases es, n, 0nat, 0nat,
{
    if n > 0 {
        lemma_items_alike(es, (n - 1) as nat, b, x, y, v, w);
        lemma_element_alike(es[n - 1], b, x, y, v, w);
    }
}

/// Bindings that are made alike leave variables that agree on what is bound by then, and on what is read after them.
proof fn lemma_bindings_alike(
    bs: Seq<Arg>,
    n: nat,
    b: Set<Seq<char>>,
    x: Held,
    y: Held,
    later: Set<Seq<char>>,
    v: World,
    w: World,
)
    requires
        n <= bs.len(),
        alike(x, y, b, free_bindings(bs, n, b).union(later)),
        calls_alike(v, w, called_args(bs, n)),
    ensures
        match (vars_after(bs, n, x, v), vars_after(bs, n, y, w)) {
            (Some(p), Some(q)) => alike(p, q, bound_by(bs, n, b), later),
            (None, None) => true,
            _ => false,
        },
    decreases bs, n, 0nat, 0nat,
{
    if n > 0 {
        let m = (n - 1) as nat;
        let inner = bound_by(bs, m, b);
        let reads = free(bs[n - 1].value, inner);
        lemma_bindings_alike(bs, m, b, x, y, reads.union(later), v, w);
        match (vars_after(bs, m, x, v), vars_after(bs, m, y, w)) {
            (Some(p), Some(q)) => {
                assert(alike(p, q, inner, reads));
                law_unread_names_do_not_count(bs[n - 1].value, inner, p, q, v, w);
            },
            _ => {},
        }
    }
}

/// An element contributes the same whatever the names mean that it does not read.
#[verifier::spinoff_prover]
proof fn lemma_element_alike(e: Expr, b: Set<Seq<char>>, x: Held, y: Held, v: World, w: World)
    requires
        alike(x, y, b, free(e, b)),
        calls_alike(v, w, called(e)),
    ensures
        contributed(e, x, v) == contributed(e, y, w),
    decreases e, loop_count(e) + 2, 0nat, 0nat,
{
    match e.kind {
        ExprKind::LcFor { bindings, body } => {
            lemma_loops_alike(e, 0, b, b, x, y, v, w);
        },
        ExprKind::LcIf { cond, yes, no } => {
            law_unread_names_do_not_count(*cond, b, x, y, v, w);
            lemma_element_alike(*yes, b, x, y, v, w);
            if let Some(z) = no {
                lemma_element_alike(*z, b, x, y, v, w);
            }
        },
        ExprKind::LcEach(inner) => {
            law_unread_names_do_not_count(*inner, b, x, y, v, w);
        },
        ExprKind::Let { bindings, body } => {
            let n = bindings@.len();
            lemma_bindings_alike(bindings@, n, b, x, y, free(*body, bound_by(bindings@, n, b)), v, w);
            match (vars_after(bindings@, n, x, v), vars_after(bindings@, n, y, w)) {
                (Some(p), Some(q)) => {
                    lemma_element_alike(*body, bound_by(bindings@, n, b), p, q, v, w);
                },
                _ => {},
            }
        },
        _ => {
            law_unread_names_do_not_count(e, b, x, y, v, w);
        },
    }
}

/// What the bindings from the `i`-th on, and the body after them, read freely.
spec fn loop_reads(bs: Seq<Arg>, body: Expr, i: nat, b: Set<Seq<char>>) -> Set<Seq<char>> {
    Set::new(
        |name: Seq<char>|
            free(body, bound_by(bs, bs.len(), b)).contains(name) || exists|j: int|
                i <= j < bs.len() && (#[trigger] free(bs[j].value, bound_by(bs, j as nat, b))).contains(name),
    )
}

proof fn lemma_loop_reads(bs: Seq<Arg>, n: nat, b: Set<Seq<char>>, j: int)
    requires
        0 <= j < n <= bs.len(),
    ensures
        free(bs[j].value, bound_by(bs, j as nat, b)).subset_of(free_bindings(bs, n, b)),
        called(bs[j].value).subset_of(called_args(bs, n)),
    decreases n,
{
    if j < n - 1 {
        lemma_loop_reads(bs, (n - 1) as nat, b, j);
    }
}

proof fn lemma_loops_alike(
    e: Expr,
    i: nat,
    b: Set<Seq<char>>,
    outer: Set<Seq<char>>,
    x: Held,
    y: Held,
    v: World,
    w: World,
)
    requires
        e.kind is LcFor,
        i <= e.kind->LcFor_bindings@.len(),
        calls_alike(v, w, called(e)),
        alike(
            x,
            y,
            bound_by(e.kind->LcFor_bindings@, i, b),
            loop_reads(e.kind->LcFor_bindings@, *e.kind->LcFor_body, i, b),
        ) || (i == 0 && alike(x, y, b, free(e, b))),
    ensures
        loop_values(e, i, x, v) == loop_values(e, i, y, w),
    decreases e, loop_count(e) + 1 - i, 1nat, 0nat,
{
    let bs = e.kind->LcFor_bindings@;
    let body = *e.kind->LcFor_body;
    let n = bs.len();
    if i == 0 && alike(x, y, b, free(e, b)) {
        assert forall|name: Seq<char>| loop_reads(bs, body, 0, b).contains(name) implies free(e, b).contains(name) by {
            if !free(body, bound_by(bs, n, b)).contains(name) {
                let j = choose|j: int|
                    0 <= j < n && (#[trigger] free(bs[j].value, bound_by(bs, j as nat, b))).contains(name);
                lemma_loop_reads(bs, n, b, j);
            }
        }
    }
    assert(alike(x, y, bound_by(bs, i, b), loop_reads(bs, body, i, b)));
    if i >= n {
        assert forall|name: Seq<char>| free(body, bound_by(bs, n, b)).contains(name) implies loop_reads(
            bs,
            body,
            i,
            b,
        ).contains(name) by {}
        lemma_element_alike(body, bound_by(bs, n, b), x, y, v, w);
    } else {
        lemma_loop_reads(bs, n, b, i as int);
        let reads = free(bs[i as int].value, bound_by(bs, i, b));
        assert forall|name: Seq<char>| reads.contains(name) implies loop_reads(bs, body, i, b).contains(name) by {
            assert(free(bs[i as int].value, bound_by(bs, i as nat, b)).contains(name));
        }
        law_unread_names_do_not_count(bs[i as int].value, bound_by(bs, i, b), x, y, v, w);
        if let Some(z) = value_of(bs[i as int].value, x, v) {
            lemma_turns_alike(e, i, b, x, y, v, w, (v.items)(z), (v.items)(z).len());
        }
    }
}

proof fn lemma_turns_alike(
    e: Expr,
    i: nat,
    b: Set<Seq<char>>,
    x: Held,
    y: Held,
    v: World,
    w: World,
    xs: Seq<Val>,
    n: nat,
)
    requires
        e.kind is LcFor,
        i < e.kind->LcFor_bindings@.len(),
        n <= xs.len(),
        calls_alike(v, w, called(e)),
        alike(
            x,
            y,
            bound_by(e.kind->LcFor_bindings@, i, b),
            loop_reads(e.kind->LcFor_bindings@, *e.kind->LcFor_body, i, b),
        ),
    ensures
        turn_values(e, i, x, v, xs, n) == turn_values(e, i, y, w, xs, n),
    decreases e, loop_count(e) + 1 - i, 0nat, n,
{
    if n > 0 {
        let bs = e.kind->LcFor_bindings@;
        let body = *e.kind->LcFor_body;
        lemma_turns_alike(e, i, b, x, y, v, w, xs, (n - 1) as nat);
        if let Some(name) = bs[i as int].name {
            let p = x.insert(name@, xs[n - 1]);
            let q = y.insert(name@, xs[n - 1]);
            assert forall|other: Seq<char>| loop_reads(bs, body, i + 1, b).contains(other) implies loop_reads(
                bs,
                body,
                i,
                b,
            ).contains(other) by {
                if !free(body, bound_by(bs, bs.len(), b)).contains(other) {
                    let j = choose|j: int|
                        i + 1 <= j < bs.len() && (#[trigger] free(bs[j].value, bound_by(bs, j as nat, b))).contains(other);
                    assert(free(bs[j].value, bound_by(bs, j as nat, b)).contains(other));
                }
            }
            assert(alike(p, q, bound_by(bs, i + 1, b), loop_reads(bs, body, i + 1, b)));
            lemma_loops_alike(e, i + 1, b, b, p, q, v, w);
        }
    }
}

/// What an expression reads freely is not bound around it and is no `$`-name; and a name that a `let` binds is read
/// freely only where it is so before it is bound.
pub proof fn law_bound_names_are_not_free(e: Expr, b: Set<Seq<char>>, name: Seq<char>, i: int)
    requires
        e.kind is Let,
        0 <= i < e.kind->Let_bindings@.len(),
        e.kind->Let_bindings@[i].name matches Some(n) && n@ == name,
        forall|j: int|
            0 <= j <= i ==> !free(
                (#[trigger] e.kind->Let_bindings@[j]).value,
                bound_by(e.kind->Let_bindings@, j as nat, b),
            ).contains(name),
    ensures
        !free(e, b).contains(name),
{
    let bs = e.kind->Let_bindings@;
    let n = bs.len();
    lemma_bound_stays(bs, n, b, name, i);
    lemma_not_free(*e.kind->Let_body, bound_by(bs, n, b), name);
    lemma_bindings_not_free(bs, n, b, name, i);
}

proof fn lemma_bound_stays(bs: Seq<Arg>, n: nat, b: Set<Seq<char>>, name: Seq<char>, i: int)
    requires
        0 <= i < n <= bs.len(),
        bs[i].name matches Some(x) && x@ == name,
    ensures
        bound_by(bs, n, b).contains(name),
    decreases n,
{
    if i < n - 1 {
        lemma_bound_stays(bs, (n - 1) as nat, b, name, i);
    }
}

proof fn lemma_bound_more(bs: Seq<Arg>, n: nat, b: Set<Seq<char>>, name: Seq<char>)
    requires
        b.contains(name),
    ensures
        bound_by(bs, n, b).contains(name),
    decreases n,
{
    if n > 0 {
        lemma_bound_more(bs, (n - 1) as nat, b, name);
    }
}

proof fn lemma_bindings_not_free(bs: Seq<Arg>, n: nat, b: Set<Seq<char>>, name: Seq<char>, i: int)
    requires
        0 <= i < bs.len(),
        n <= bs.len(),
        bs[i].name matches Some(x) && x@ == name,
        forall|j: int| 0 <= j <= i ==> !free((#[trigger] bs[j]).value, bound_by(bs, j as nat, b)).contains(name),
    ensures
        !free_bindings(bs, n, b).contains(name),
    decreases n,
{
    if n > 0 {
        lemma_bindings_not_free(bs, (n - 1) as nat, b, name, i);
        if n - 1 > i {
            lemma_bound_stays(bs, (n - 1) as nat, b, name, i);
            lemma_not_free(bs[n - 1].value, bound_by(bs, (n - 1) as nat, b), name);
        } else {
            assert(!free(bs[n - 1].value, bound_by(bs, (n - 1) as nat, b)).contains(name));
        }
    }
}

/// A bound name is not read freely.
pub proof fn law_bound_is_not_free(e: Expr, b: Set<Seq<char>>, name: Seq<char>)
    requires
        b.contains(name) || special(name),
    ensures
        !free(e, b).contains(name),
{
    lemma_not_free(e, b, name);
}

proof fn lemma_not_free(e: Expr, b: Set<Seq<char>>, name: Seq<char>)
    requires
        b.contains(name) || special(name),
    ensures
        !free(e, b).contains(name),
    decreases e, 0nat,
{
    match e.kind {
        ExprKind::Unary { operand, .. } => {
            lemma_not_free(*operand, b, name);
        },
        ExprKind::Binary { lhs, rhs, .. } => {
            lemma_not_free(*lhs, b, name);
            lemma_not_free(*rhs, b, name);
        },
        ExprKind::Ternary { cond, yes, no } => {
            lemma_not_free(*cond, b, name);
            lemma_not_free(*yes, b, name);
            lemma_not_free(*no, b, name);
        },
        ExprKind::Index { base, index } => {
            lemma_not_free(*base, b, name);
            lemma_not_free(*index, b, name);
        },
        ExprKind::Member { base, .. } => {
            lemma_not_free(*base, b, name);
        },
        ExprKind::Call { callee, args } => {
            lemma_not_free_args(args@, args@.len(), b, name);
            lemma_not_free(*callee, b, name);
        },
        ExprKind::Vector(items) => {
            lemma_not_free_items(items@, items@.len(), b, name);
        },
        ExprKind::Range { start, step, end } => {
            lemma_not_free(*start, b, name);
            if let Some(p) = step {
                lemma_not_free(*p, b, name);
            }
            lemma_not_free(*end, b, name);
        },
        ExprKind::FunctionLiteral { params, body, .. } => {
            let c = b.union(name_set(param_names(params@)));
            lemma_not_free_defaults(params@, params@.len(), c, name);
            lemma_not_free(*body, c, name);
        },
        ExprKind::Let { bindings, body } => {
            lemma_not_free_bindings(bindings@, bindings@.len(), b, name);
            if b.contains(name) {
                lemma_bound_more(bindings@, bindings@.len(), b, name);
            }
            lemma_not_free(*body, bound_by(bindings@, bindings@.len(), b), name);
        },
        ExprKind::LcFor { bindings, body } => {
            lemma_not_free_bindings(bindings@, bindings@.len(), b, name);
            if b.contains(name) {
                lemma_bound_more(bindings@, bindings@.len(), b, name);
            }
            lemma_not_free(*body, bound_by(bindings@, bindings@.len(), b), name);
        },
        ExprKind::Assert { args, body, .. } => {
            lemma_not_free_args(args@, args@.len(), b, name);
            if let Some(x) = body {
                lemma_not_free(*x, b, name);
            }
        },
        ExprKind::Echo { args, body } => {
            lemma_not_free_args(args@, args@.len(), b, name);
            if let Some(x) = body {
                lemma_not_free(*x, b, name);
            }
        },
        ExprKind::LcForC { init, cond, update, body } => {
            let c = bound_by(init@, init@.len(), b);
            let d = bound_by(update@, update@.len(), c);
            if b.contains(name) {
                lemma_bound_more(init@, init@.len(), b, name);
                lemma_bound_more(update@, update@.len(), c, name);
            }
            lemma_not_free_bindings(init@, init@.len(), b, name);
            lemma_not_free_bindings(update@, update@.len(), c, name);
            lemma_not_free(*cond, d, name);
            lemma_not_free(*body, d, name);
        },
        ExprKind::LcEach(inner) => {
            lemma_not_free(*inner, b, name);
        },
        ExprKind::LcIf { cond, yes, no } => {
            lemma_not_free(*cond, b, name);
            lemma_not_free(*yes, b, name);
            if let Some(x) = no {
                lemma_not_free(*x, b, name);
            }
        },
        _ => {},
    }
}

proof fn lemma_not_free_args(args: Seq<Arg>, n: nat, b: Set<Seq<char>>, name: Seq<char>)
    requires
        b.contains(name) || special(name),
    ensures
        !free_args(args, n, b).contains(name),
    decreases args, n,
{
    if 0 < n <= args.len() {
        lemma_not_free_args(args, (n - 1) as nat, b, name);
        lemma_not_free(args[n - 1].value, b, name);
    }
}

proof fn lemma_not_free_items(es: Seq<Expr>, n: nat, b: Set<Seq<char>>, name: Seq<char>)
    requires
        b.contains(name) || special(name),
    ensures
        !free_items(es, n, b).contains(name),
    decreases es, n,
{
    if 0 < n <= es.len() {
        lemma_not_free_items(es, (n - 1) as nat, b, name);
        lemma_not_free(es[n - 1], b, name);
    }
}

proof fn lemma_not_free_defaults(params: Seq<Parameter>, n: nat, b: Set<Seq<char>>, name: Seq<char>)
    requires
        b.contains(name) || special(name),
    ensures
        !free_defaults(params, n, b).contains(name),
    decreases params, n,
{
    if 0 < n <= params.len() {
        lemma_not_free_defaults(params, (n - 1) as nat, b, name);
        if let Some(d) = params[n - 1].default {
            lemma_not_free(d, b, name);
        }
    }
}

proof fn lemma_not_free_bindings(bs: Seq<Arg>, n: nat, b: Set<Seq<char>>, name: Seq<char>)
    requires
        b.contains(name) || special(name),
    ensures
        !free_bindings(bs, n, b).contains(name),
    decreases bs, n,
{
    if 0 < n <= bs.len() {
        lemma_not_free_bindings(bs, (n - 1) as nat, b, name);
        if b.contains(name) {
            lemma_bound_more(bs, (n - 1) as nat, b, name);
        }
        lemma_not_free(bs[n - 1].value, bound_by(bs, (n - 1) as nat, b), name);
    }
}

/// What a function reaches: it depends on the functions that it calls and that are no builtins, itself not counted, on the
/// builtins that it calls, and on the names that it reads and that are not its parameters.
pub proof fn law_reach(name: Seq<char>, params: Seq<Parameter>, body: Expr, bs: Set<Seq<char>>, x: Seq<char>)
    ensures
        ({
            let r = reach_of(name, params, body, bs);
            let calls = called(body).contains(x) || called_defaults(params, params.len()).contains(x);
            &&& r.deps.contains(x) <==> calls && !bs.contains(x) && x != name
            &&& r.builtins.contains(x) <==> calls && bs.contains(x)
            &&& (exists|i: int| 0 <= i < params.len() && (#[trigger] params[i]).name@ == x) ==> !r.consts.contains(x)
        }),
{
    let c = name_set(param_names(params));
    if exists|i: int| 0 <= i < params.len() && (#[trigger] params[i]).name@ == x {
        let i = choose|i: int| 0 <= i < params.len() && (#[trigger] params[i]).name@ == x;
        assert(param_names(params)[i] == x);
        assert(c.contains(x));
        lemma_not_free(body, c, x);
        lemma_not_free_defaults(params, params.len(), c, x);
    }
}

} // verus!

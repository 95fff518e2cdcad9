//! The rules of vector elements: what a generator gives, from what its parts give.

use vstd::prelude::*;

use crate::ast::{Arg, Expr};
use crate::iterate::{generates, items_of, items_warning};
use crate::machine::{
    bind_vars, bound_name, cfor_init_next, cfor_set_next, contribution_step, each_from, elem_step,
    perform, perform_cycle, perform_element, perform_plain, set_var, Cycle, Job, State,
    MAX_CFOR_ITERATIONS,
};
use crate::message::Fault;
use crate::num::FloatOp;
use crate::reach::{
    alone, gives, lemma_begins, lemma_do, lemma_ends, lemma_fails, lemma_over, lemma_starts,
    lemma_stops, lemma_tail, lemma_then, on, reaches, yields, Around,
};
use crate::rules::{body_job, lemma_let, let_gives, let_job};
use crate::run::back;
use crate::scope::Scope;
use crate::value::{truthy, vector_of, Val};

verus! {

/// A generator outside a vector gives what it contributes to one.
pub proof fn law_generator(
    s: State,
    e: Expr,
    scope: Scope,
    w: Around,
    t: State,
    r: Result<Val, Fault>,
)
    requires
        s.setup.budget is None,
        e.kind is LcFor || e.kind is LcForC || e.kind is LcEach || e.kind is LcIf,
        gives(s, Job::LcElem(e, scope), w, t, r),
    ensures
        yields(s, e, scope, w, t, r),
{
    let part = Job::LcElem(e, scope);
    lemma_begins(s, e, scope, w);
    let y = on(s, Seq::empty(), Seq::empty()).task(part);
    assert(y.tasks =~= seq![part]);
    assert(y == on(s, seq![part], Seq::empty()));
    lemma_tail(s, Job::Eval(e, scope), w, s, part, t, r);
}

/// An element that is neither a generator nor a `let` gives its value.
pub proof fn law_plain_element(
    s: State,
    e: Expr,
    scope: Scope,
    w: Around,
    t: State,
    r: Result<Val, Fault>,
)
    requires
        s.setup.budget is None,
        !(e.kind is LcFor || e.kind is LcForC || e.kind is LcEach || e.kind is LcIf
            || e.kind is Let),
        yields(s, e, scope, w, t, r),
    ensures
        gives(s, Job::LcElem(e, scope), w, t, r),
{
    let part = Job::Eval(e, scope);
    let j = Job::LcElem(e, scope);
    lemma_starts(s, j, w);
    let y = on(s, Seq::empty(), Seq::empty()).task(part);
    assert(y.tasks =~= seq![part]);
    assert(y == on(s, seq![part], Seq::empty()));
    lemma_tail(s, j, w, s, part, t, r);
}

/// A `let` element evaluates its bindings in turn, and gives what its body contributes.
pub proof fn law_let_element(
    s: State,
    e: Expr,
    scope: Scope,
    w: Around,
    t: State,
    r: Result<Val, Fault>,
)
    requires
        s.setup.budget is None,
        e.kind is Let,
        let_gives(s, e.kind->Let_bindings@, 0, *e.kind->Let_body, true, scope, w, t, r),
    ensures
        gives(s, Job::LcElem(e, scope), w, t, r),
{
    let bindings = e.kind->Let_bindings@;
    let body = *e.kind->Let_body;
    let j = Job::LcElem(e, scope);
    let bare = on(s, Seq::empty(), Seq::empty());
    lemma_starts(s, j, w);
    let y = elem_step(bare, e, scope);
    if bindings.len() == 0 {
        let part = Job::LcElem(body, scope);
        assert(y.tasks =~= seq![part]);
        assert(y == on(s, seq![part], Seq::empty()));
        lemma_tail(s, j, w, s, part, t, r);
    } else {
        let ts = seq![
            let_job(bindings, 0, body, true, scope),
            Job::Eval(bindings[0].value, scope),
        ];
        assert(y.tasks =~= ts);
        assert(y == on(s, ts, Seq::empty()));
        assert(e.kind->Let_bindings.len() == bindings.len());
        lemma_let(s, j, s, bindings, 0, body, true, scope, w, t, r);
    }
}

/// What a branch or a body contributes: a generator its elements, anything else its value as the
/// only element.
pub open spec fn contribution_gives(
    s: State,
    body: Expr,
    scope: Scope,
    w: Around,
    t: State,
    r: Result<Val, Fault>,
) -> bool {
    if generates(body) {
        gives(s, Job::LcElem(body, scope), w, t, r)
    } else {
        exists|q: Result<Val, Fault>|
            #[trigger] yields(s, body, scope, w, t, q) && r == match q {
                Ok(a) => Ok::<Val, Fault>(vector_of(seq![a])),
                Err(x) => Err(x),
            }
    }
}

proof fn lemma_contribution(
    o: State,
    jo: Job,
    s: State,
    body: Expr,
    scope: Scope,
    w: Around,
    t: State,
    r: Result<Val, Fault>,
)
    requires
        s.setup.budget is None,
        contribution_gives(s, body, scope, w, t, r),
        reaches(
            alone(o, jo),
            w,
            contribution_step(on(s, Seq::empty(), Seq::empty()), body, scope),
        ),
        s.tasks == o.tasks,
        s.values == o.values,
    ensures
        gives(o, jo, w, t, r),
{
    let y = contribution_step(on(s, Seq::empty(), Seq::empty()), body, scope);
    if generates(body) {
        let part = Job::LcElem(body, scope);
        assert(y.tasks =~= seq![part]);
        assert(y == on(s, seq![part], Seq::empty()));
        lemma_tail(o, jo, w, s, part, t, r);
    } else {
        let q = choose|q: Result<Val, Fault>|
            #[trigger] yields(s, body, scope, w, t, q) && r == match q {
                Ok(a) => Ok::<Val, Fault>(vector_of(seq![a])),
                Err(x) => Err(x),
            };
        let part = Job::Eval(body, scope);
        let k = Job::WrapContribution;
        assert(y.tasks =~= seq![k, part]);
        assert(y == on(s, seq![k, part], Seq::empty()));
        reveal(perform_plain);
        lemma_over(o, jo, w, s, k, part, t, q);
        match q {
            Ok(a) => {
                let v = vector_of(seq![a]);
                let end = perform(on(t, Seq::empty(), seq![a]), k, w.f).0;
                assert(end.values =~= seq![v]);
                lemma_ends(o, jo, w, end, v);
                assert(back(o, end) == t);
            },
            Err(x) => {},
        }
    }
}

/// A conditional element contributes what the branch does that its condition chooses, and nothing
/// where that branch is missing.
pub proof fn law_if_element(
    s: State,
    e: Expr,
    scope: Scope,
    w: Around,
    u: State,
    q: Result<Val, Fault>,
    t: State,
    r: Result<Val, Fault>,
)
    requires
        s.setup.budget is None,
        e.kind is LcIf,
        yields(s, *e.kind->LcIf_cond, scope, w, u, q),
        match q {
            Err(x) => t == u && r == Err::<Val, Fault>(x),
            Ok(a) => if truthy(a) {
                contribution_gives(u, *e.kind->LcIf_yes, scope, w, t, r)
            } else {
                match e.kind->LcIf_no {
                    Some(no) => contribution_gives(u, *no, scope, w, t, r),
                    None => t == u && r == Ok::<Val, Fault>(vector_of(Seq::empty())),
                }
            },
        },
    ensures
        gives(s, Job::LcElem(e, scope), w, t, r),
{
    let jo = Job::LcElem(e, scope);
    let no = match e.kind->LcIf_no {
        Some(b) => Some(*b),
        None => None,
    };
    let yes = *e.kind->LcIf_yes;
    let k = Job::LcIfBranch { yes, no, scope };
    let part = Job::Eval(*e.kind->LcIf_cond, scope);
    let nil = Seq::<Val>::empty();
    let none = Seq::<Job>::empty();
    lemma_starts(s, jo, w);
    let y = elem_step(on(s, none, nil), e, scope);
    assert(y.tasks =~= seq![k, part]);
    assert(y == on(s, seq![k, part], nil));
    reveal(perform_element);
    lemma_over(s, jo, w, s, k, part, u, q);
    match q {
        Err(x) => {},
        Ok(a) => {
            let z = on(u, none, seq![a]);
            assert(z.popped().values =~= nil);
            assert(z.popped() == on(u, none, nil));
            if truthy(a) {
                lemma_contribution(s, jo, u, yes, scope, w, t, r);
            } else {
                match no {
                    Some(b) => {
                        lemma_contribution(s, jo, u, b, scope, w, t, r);
                    },
                    None => {
                        let v = vector_of(Seq::empty());
                        let end = on(u, none, nil).value(v);
                        assert(end.values =~= seq![v]);
                        lemma_ends(s, jo, w, end, v);
                        assert(back(s, end) == u);
                    },
                }
            }
        },
    }
}

proof fn lemma_each(
    s: State,
    ts: Seq<Job>,
    vs: Seq<Val>,
    cs: Seq<Val>,
    i: int,
    out: Seq<Val>,
    f: spec_fn(FloatOp, u64, u64) -> u64,
)
    requires
        s.setup.budget is None,
    ensures
        each_from(on(s, ts, vs), cs, i, out, f) == (
            on(each_from(s, cs, i, out, f).0, ts, vs),
            None::<Fault>,
            each_from(s, cs, i, out, f).2,
        ),
        each_from(s, cs, i, out, f).0.tasks == s.tasks,
        each_from(s, cs, i, out, f).0.values == s.values,
    decreases cs.len() - i,
{
    if i < cs.len() {
        let why = items_warning(cs[i], f);
        assert(on(s, ts, vs).warned(why) == on(s.warned(why), ts, vs));
        lemma_each(s.warned(why), ts, vs, cs, i + 1, out + items_of(cs[i], f), f);
    }
}

/// An `each` contributes the elements of what its operand gives; where the operand is a generator,
/// the elements of each thing that it contributes.
pub proof fn law_each_element(
    s: State,
    e: Expr,
    scope: Scope,
    w: Around,
    u: State,
    q: Result<Val, Fault>,
)
    requires
        s.setup.budget is None,
        e.kind is LcEach,
        gives(s, Job::LcElem(*e.kind->LcEach_0, scope), w, u, q),
    ensures
        match q {
            Err(x) => gives(s, Job::LcElem(e, scope), w, u, Err(x)),
            Ok(a) => {
                let end = if generates(*e.kind->LcEach_0) {
                    each_from(
                        u.warned(items_warning(a, w.f)),
                        items_of(a, w.f),
                        0,
                        Seq::empty(),
                        w.f,
                    )
                } else {
                    each_from(u, seq![a], 0, Seq::empty(), w.f)
                };
                gives(s, Job::LcElem(e, scope), w, end.0, Ok(vector_of(end.2)))
            },
        },
{
    let inner = *e.kind->LcEach_0;
    let jo = Job::LcElem(e, scope);
    let k = Job::LcEachSplice { splice_inner: generates(inner) };
    let part = Job::LcElem(inner, scope);
    let nil = Seq::<Val>::empty();
    let none = Seq::<Job>::empty();
    lemma_starts(s, jo, w);
    let y = elem_step(on(s, none, nil), e, scope);
    assert(y.tasks =~= seq![k, part]);
    assert(y == on(s, seq![k, part], nil));
    match q {
        Err(x) => {
            lemma_over(s, jo, w, s, k, part, u, q);
        },
        Ok(a) => {
            assert(none.push(k).push(part) =~= seq![k, part]);
            lemma_then(alone(s, jo), s, part, w, u, a, none.push(k), nil);
            assert(nil.push(a) =~= seq![a]);
            let z = on(u, none, seq![a]);
            assert(z.popped().values =~= nil);
            assert(z.popped() == on(u, none, nil));
            let why = items_warning(a, w.f);
            let from = if generates(inner) {
                u.warned(why)
            } else {
                u
            };
            let cs = if generates(inner) {
                items_of(a, w.f)
            } else {
                seq![a]
            };
            assert(on(u, none, nil).warned(why) == on(u.warned(why), none, nil));
            lemma_each(from, none, nil, cs, 0, Seq::empty(), w.f);
            reveal(perform_element);
            lemma_do(alone(s, jo), u, k, w, none, seq![a]);
            let x = each_from(from, cs, 0, Seq::empty(), w.f);
            let end = perform(z, k, w.f).0;
            let v = vector_of(x.2);
            assert(end.values =~= seq![v]);
            lemma_ends(s, jo, w, end, v);
            assert(back(s, end) == x.0);
        },
    }
}

/// The task of one turn of a loop: the loops over the bindings from `at` on, or the body.
pub open spec fn turn_job(bindings: Seq<Arg>, at: usize, body: Expr, scope: Scope) -> Job {
    if at < bindings.len() {
        Job::LcForBindings { bindings, at, body, scope }
    } else {
        body_job(body, generates(body), scope)
    }
}

/// What the turns of a loop give from the item `next` on: each binds the variable in the frame of
/// the loop, and what it gives is collected, by its elements where it is itself a contribution.
pub open spec fn turns_give(
    s: State,
    bindings: Seq<Arg>,
    at: usize,
    body: Expr,
    var: Seq<char>,
    items: Seq<Val>,
    next: nat,
    frame: Scope,
    acc: Seq<Val>,
    splice_item: bool,
    w: Around,
    t: State,
    r: Result<Val, Fault>,
) -> bool
    decreases items.len() - next,
{
    if next >= items.len() {
        t == s && r == Ok::<Val, Fault>(vector_of(acc))
    } else {
        let v = s.binding(frame, var, items[next as int]);
        exists|u: State, q: Result<Val, Fault>|
            #[trigger] gives(v, turn_job(bindings, at, body, v.here()), w, u, q) && match q {
                Err(x) => t == u && r == Err::<Val, Fault>(x),
                Ok(a) => turns_give(
                    if splice_item {
                        u.warned(items_warning(a, w.f))
                    } else {
                        u
                    },
                    bindings,
                    at,
                    body,
                    var,
                    items,
                    next + 1,
                    frame,
                    if splice_item {
                        acc + items_of(a, w.f)
                    } else {
                        acc.push(a)
                    },
                    splice_item,
                    w,
                    t,
                    r,
                ),
            }
    }
}

/// The task that makes the turn `next` of a loop.
spec fn next_job(
    bindings: Seq<Arg>,
    at: usize,
    body: Expr,
    var: Seq<char>,
    items: Seq<Val>,
    next: nat,
    frame: Scope,
    acc: Seq<Val>,
    splice_item: bool,
    pending: bool,
) -> Job {
    Job::LcForNext {
        bindings,
        at,
        body,
        var,
        items,
        next: next as usize,
        frame,
        acc,
        splice_item,
        pending,
    }
}

/// A run that has come to a turn of a loop; `got` is what the turn before has left, where there is
/// one, and `s` and `acc` are the state and the elements once that is collected.
proof fn lemma_turns(
    o: State,
    jo: Job,
    p: State,
    before: Seq<Val>,
    got: Option<Val>,
    s: State,
    bindings: Seq<Arg>,
    at: usize,
    body: Expr,
    var: Seq<char>,
    items: Seq<Val>,
    next: nat,
    frame: Scope,
    acc: Seq<Val>,
    splice_item: bool,
    w: Around,
    t: State,
    r: Result<Val, Fault>,
)
    requires
        p.setup.budget is None,
        items.len() <= usize::MAX,
        next <= items.len(),
        reaches(
            alone(o, jo),
            w,
            on(
                p,
                Seq::empty().push(
                    next_job(
                        bindings,
                        at,
                        body,
                        var,
                        items,
                        next,
                        frame,
                        before,
                        splice_item,
                        got is Some,
                    ),
                ),
                match got {
                    Some(a) => seq![a],
                    None => Seq::empty(),
                },
            ),
        ),
        match got {
            None => s == p && acc == before,
            Some(a) => if splice_item {
                s == p.warned(items_warning(a, w.f)) && acc == before + items_of(a, w.f)
            } else {
                s == p && acc == before.push(a)
            },
        },
        turns_give(
            s,
            bindings,
            at,
            body,
            var,
            items,
            next,
            frame,
            acc,
            splice_item,
            w,
            t,
            r,
        ),
        p.tasks == o.tasks,
        p.values == o.values,
    ensures
        gives(o, jo, w, t, r),
    decreases items.len() - next,
{
    let nil = Seq::<Val>::empty();
    let none = Seq::<Job>::empty();
    let vs = match got {
        Some(a) => seq![a],
        None => nil,
    };
    let j = next_job(
        bindings,
        at,
        body,
        var,
        items,
        next,
        frame,
        before,
        splice_item,
        got is Some,
    );
    let z = on(p, none, vs);
    match got {
        Some(a) => {
            assert(z.popped().values =~= nil);
            assert(z.popped() == on(p, none, nil));
            let why = items_warning(a, w.f);
            assert(on(p, none, nil).warned(why) == on(p.warned(why), none, nil));
        },
        None => {},
    }
    reveal(perform_element);
    lemma_do(alone(o, jo), p, j, w, none, vs);
    let y = perform(z, j, w.f).0;
    if next >= items.len() {
        let v = vector_of(acc);
        assert(y.values =~= seq![v]);
        lemma_ends(o, jo, w, y, v);
        assert(back(o, y) == s);
    } else {
        let v = s.binding(frame, var, items[next as int]);
        let part = turn_job(bindings, at, body, v.here());
        let k = next_job(
            bindings,
            at,
            body,
            var,
            items,
            next + 1,
            frame,
            acc,
            splice_item,
            true,
        );
        assert(on(s, none, nil).binding(frame, var, items[next as int]) == on(v, none, nil));
        assert(y.tasks =~= none.push(k).push(part));
        assert(y == on(v, none.push(k).push(part), nil));
        let (u, q) = choose|u: State, q: Result<Val, Fault>|
            #[trigger] gives(v, turn_job(bindings, at, body, v.here()), w, u, q) && match q {
                Err(x) => t == u && r == Err::<Val, Fault>(x),
                Ok(a) => turns_give(
                    if splice_item {
                        u.warned(items_warning(a, w.f))
                    } else {
                        u
                    },
                    bindings,
                    at,
                    body,
                    var,
                    items,
                    next + 1,
                    frame,
                    if splice_item {
                        acc + items_of(a, w.f)
                    } else {
                        acc.push(a)
                    },
                    splice_item,
                    w,
                    t,
                    r,
                ),
            };
        match q {
            Err(x) => {
                lemma_fails(o, jo, w, v, part, u, x, none.push(k), nil);
            },
            Ok(a) => {
                lemma_then(alone(o, jo), v, part, w, u, a, none.push(k), nil);
                assert(nil.push(a) =~= seq![a]);
                lemma_turns(
                    o,
                    jo,
                    u,
                    acc,
                    Some(a),
                    if splice_item {
                        u.warned(items_warning(a, w.f))
                    } else {
                        u
                    },
                    bindings,
                    at,
                    body,
                    var,
                    items,
                    next + 1,
                    frame,
                    if splice_item {
                        acc + items_of(a, w.f)
                    } else {
                        acc.push(a)
                    },
                    splice_item,
                    w,
                    t,
                    r,
                );
            },
        }
    }
}

/// A `for` element contributes what the loops over its bindings do.
pub proof fn law_for_element(
    s: State,
    e: Expr,
    scope: Scope,
    w: Around,
    t: State,
    r: Result<Val, Fault>,
)
    requires
        s.setup.budget is None,
        e.kind is LcFor,
        gives(
            s,
            Job::LcForBindings {
                bindings: e.kind->LcFor_bindings@,
                at: 0,
                body: *e.kind->LcFor_body,
                scope,
            },
            w,
            t,
            r,
        ),
    ensures
        gives(s, Job::LcElem(e, scope), w, t, r),
{
    let jo = Job::LcElem(e, scope);
    let part = Job::LcForBindings {
        bindings: e.kind->LcFor_bindings@,
        at: 0,
        body: *e.kind->LcFor_body,
        scope,
    };
    lemma_starts(s, jo, w);
    let y = elem_step(on(s, Seq::empty(), Seq::empty()), e, scope);
    assert(y.tasks =~= seq![part]);
    assert(y == on(s, seq![part], Seq::empty()));
    lemma_tail(s, jo, w, s, part, t, r);
}

/// The loop over the binding `at` makes a turn for each value of what is bound, in a frame of its
/// own; inside it are the loops over the bindings that follow, and innermost the body.
pub proof fn law_loop_over_a_binding(
    s: State,
    bindings: Seq<Arg>,
    at: usize,
    body: Expr,
    scope: Scope,
    w: Around,
    u: State,
    q: Result<Val, Fault>,
    t: State,
    r: Result<Val, Fault>,
)
    requires
        s.setup.budget is None,
        bindings.len() <= usize::MAX,
        at < bindings.len(),
        yields(s, bindings[at as int].value, scope, w, u, q),
        match q {
            Err(x) => t == u && r == Err::<Val, Fault>(x),
            Ok(it) => items_of(it, w.f).len() <= usize::MAX && turns_give(
                u.child(scope).warned(items_warning(it, w.f)),
                bindings,
                (at + 1) as usize,
                body,
                bound_name(bindings[at as int]),
                items_of(it, w.f),
                0,
                u.child(scope).here(),
                Seq::empty(),
                at + 1 < bindings.len() || generates(body),
                w,
                t,
                r,
            ),
        },
    ensures
        gives(s, Job::LcForBindings { bindings, at, body, scope }, w, t, r),
{
    let jo = Job::LcForBindings { bindings, at, body, scope };
    let k = Job::LcForStart { bindings, at, body, scope };
    let part = Job::Eval(bindings[at as int].value, scope);
    let nil = Seq::<Val>::empty();
    let none = Seq::<Job>::empty();
    reveal(perform_element);
    lemma_starts(s, jo, w);
    let y = perform(on(s, none, nil), jo, w.f).0;
    assert(y.tasks =~= seq![k, part]);
    assert(y == on(s, seq![k, part], nil));
    match q {
        Err(x) => {
            lemma_over(s, jo, w, s, k, part, u, q);
        },
        Ok(it) => {
            assert(none.push(k).push(part) =~= seq![k, part]);
            lemma_then(alone(s, jo), s, part, w, u, it, none.push(k), nil);
            assert(nil.push(it) =~= seq![it]);
            let z = on(u, none, seq![it]);
            assert(z.popped().values =~= nil);
            assert(z.popped() == on(u, none, nil));
            lemma_do(alone(s, jo), u, k, w, none, seq![it]);
            let why = items_warning(it, w.f);
            let p = u.child(scope).warned(why);
            assert(on(u, none, nil).child(scope) == on(u.child(scope), none, nil));
            assert(on(u.child(scope), none, nil).warned(why) == on(p, none, nil));
            let next = next_job(
                bindings,
                (at + 1) as usize,
                body,
                bound_name(bindings[at as int]),
                items_of(it, w.f),
                0,
                u.child(scope).here(),
                Seq::empty(),
                at + 1 < bindings.len() || generates(body),
                false,
            );
            let x = perform(z, k, w.f).0;
            assert(x == on(p, none.push(next), nil));
            lemma_turns(
                s,
                jo,
                p,
                Seq::empty(),
                None,
                p,
                bindings,
                (at + 1) as usize,
                body,
                bound_name(bindings[at as int]),
                items_of(it, w.f),
                0,
                u.child(scope).here(),
                Seq::empty(),
                at + 1 < bindings.len() || generates(body),
                w,
                t,
                r,
            );
        },
    }
}

/// A loop over no binding contributes what its body does.
pub proof fn law_loop_over_nothing(
    s: State,
    bindings: Seq<Arg>,
    at: usize,
    body: Expr,
    scope: Scope,
    w: Around,
    t: State,
    r: Result<Val, Fault>,
)
    requires
        s.setup.budget is None,
        at >= bindings.len(),
        contribution_gives(s, body, scope, w, t, r),
    ensures
        gives(s, Job::LcForBindings { bindings, at, body, scope }, w, t, r),
{
    let jo = Job::LcForBindings { bindings, at, body, scope };
    reveal(perform_element);
    lemma_starts(s, jo, w);
    lemma_contribution(s, jo, s, body, scope, w, t, r);
}

/// What a C-style loop gives from its initial binding `at` on: each is evaluated in the scope with
/// those before it; then the turns begin.
pub open spec fn init_gives(
    s: State,
    init: Seq<Arg>,
    at: nat,
    scope: Scope,
    state: Cycle,
    w: Around,
    t: State,
    r: Result<Val, Fault>,
) -> bool
    decreases init.len() - at,
{
    if at >= init.len() {
        gives(s, Job::LcForCStep(state), w, t, r)
    } else {
        exists|u: State, q: Result<Val, Fault>|
            #[trigger] yields(s, init[at as int].value, scope, w, u, q) && match q {
                Err(x) => t == u && r == Err::<Val, Fault>(x),
                Ok(a) => {
                    let name = bound_name(init[at as int]);
                    let v = u.binding(scope, name, a);
                    init_gives(
                        v,
                        init,
                        at + 1,
                        v.here(),
                        Cycle { vars: state.vars.push((name, a)), ..state },
                        w,
                        t,
                        r,
                    )
                },
            }
    }
}

proof fn lemma_init(
    o: State,
    jo: Job,
    s: State,
    init: Seq<Arg>,
    at: nat,
    scope: Scope,
    state: Cycle,
    w: Around,
    t: State,
    r: Result<Val, Fault>,
)
    requires
        s.setup.budget is None,
        at <= init.len() <= usize::MAX,
        init_gives(s, init, at, scope, state, w, t, r),
        reaches(
            alone(o, jo),
            w,
            cfor_init_next(on(s, Seq::empty(), Seq::empty()), init, at as int, scope, state),
        ),
        s.tasks == o.tasks,
        s.values == o.values,
    ensures
        gives(o, jo, w, t, r),
    decreases init.len() - at,
{
    let nil = Seq::<Val>::empty();
    let none = Seq::<Job>::empty();
    let y = cfor_init_next(on(s, none, nil), init, at as int, scope, state);
    if at >= init.len() {
        let part = Job::LcForCStep(state);
        assert(y.tasks =~= seq![part]);
        assert(y == on(s, seq![part], nil));
        lemma_tail(o, jo, w, s, part, t, r);
    } else {
        let part = Job::Eval(init[at as int].value, scope);
        let k = Job::CForInit { init, at: at as usize, scope, state };
        assert(y.tasks =~= seq![k, part]);
        assert(y == on(s, seq![k, part], nil));
        let (u, q) = choose|u: State, q: Result<Val, Fault>|
            #[trigger] yields(s, init[at as int].value, scope, w, u, q) && match q {
                Err(x) => t == u && r == Err::<Val, Fault>(x),
                Ok(a) => {
                    let name = bound_name(init[at as int]);
                    let v = u.binding(scope, name, a);
                    init_gives(
                        v,
                        init,
                        at + 1,
                        v.here(),
                        Cycle { vars: state.vars.push((name, a)), ..state },
                        w,
                        t,
                        r,
                    )
                },
            };
        reveal(perform_cycle);
        lemma_over(o, jo, w, s, k, part, u, q);
        match q {
            Err(x) => {},
            Ok(a) => {
                let name = bound_name(init[at as int]);
                let v = u.binding(scope, name, a);
                let z = on(u, none, seq![a]);
                assert(z.popped().values =~= nil);
                assert(z.popped() == on(u, none, nil));
                assert(on(u, none, nil).binding(scope, name, a) == on(v, none, nil));
                lemma_init(
                    o,
                    jo,
                    v,
                    init,
                    at + 1,
                    v.here(),
                    Cycle { vars: state.vars.push((name, a)), ..state },
                    w,
                    t,
                    r,
                );
            },
        }
    }
}

/// A C-style loop binds its variables in a frame of its own, and then makes its turns.
pub proof fn law_c_style_loop(
    s: State,
    e: Expr,
    scope: Scope,
    w: Around,
    t: State,
    r: Result<Val, Fault>,
)
    requires
        s.setup.budget is None,
        e.kind is LcForC,
        init_gives(
            s.child(scope),
            e.kind->LcForC_init@,
            0,
            s.child(scope).here(),
            Cycle {
                cond: *e.kind->LcForC_cond,
                update: e.kind->LcForC_update@,
                body: *e.kind->LcForC_body,
                outer: scope,
                vars: Seq::empty(),
                iterations: 0,
                acc: Seq::empty(),
                splice_item: generates(*e.kind->LcForC_body),
            },
            w,
            t,
            r,
        ),
    ensures
        gives(s, Job::LcElem(e, scope), w, t, r),
{
    let jo = Job::LcElem(e, scope);
    let c = s.child(scope);
    lemma_starts(s, jo, w);
    assert(on(s, Seq::empty(), Seq::empty()).child(scope) == on(c, Seq::empty(), Seq::empty()));
    assert(e.kind->LcForC_init.len() == e.kind->LcForC_init@.len());
    lemma_init(
        s,
        jo,
        c,
        e.kind->LcForC_init@,
        0,
        c.here(),
        Cycle {
            cond: *e.kind->LcForC_cond,
            update: e.kind->LcForC_update@,
            body: *e.kind->LcForC_body,
            outer: scope,
            vars: Seq::empty(),
            iterations: 0,
            acc: Seq::empty(),
            splice_item: generates(*e.kind->LcForC_body),
        },
        w,
        t,
        r,
    );
}

/// What a C-style loop gives from its update `at` on: each is evaluated in the scope with those
/// before it; then the next turn comes, or a failure after too many of them.
pub open spec fn updates_give(
    s: State,
    at: nat,
    scope: Scope,
    state: Cycle,
    w: Around,
    t: State,
    r: Result<Val, Fault>,
) -> bool
    decreases state.update.len() - at,
{
    if at >= state.update.len() {
        if state.iterations >= MAX_CFOR_ITERATIONS {
            t == s && r == Err::<Val, Fault>(Fault::Eval("For loop counter exceeded limit"@))
        } else {
            gives(
                s,
                Job::LcForCStep(Cycle { iterations: (state.iterations + 1) as u64, ..state }),
                w,
                t,
                r,
            )
        }
    } else {
        exists|u: State, q: Result<Val, Fault>|
            #[trigger] yields(s, state.update[at as int].value, scope, w, u, q) && match q {
                Err(x) => t == u && r == Err::<Val, Fault>(x),
                Ok(a) => {
                    let name = bound_name(state.update[at as int]);
                    let v = u.binding(scope, name, a);
                    updates_give(
                        v,
                        at + 1,
                        v.here(),
                        Cycle { vars: set_var(state.vars, name, a, 0), ..state },
                        w,
                        t,
                        r,
                    )
                },
            }
    }
}

/// A run that has come to the task `k` with the values `vs`, which goes on with the update `at` of
/// a C-style loop.
proof fn lemma_updates(
    o: State,
    jo: Job,
    p: State,
    k: Job,
    vs: Seq<Val>,
    s: State,
    at: nat,
    scope: Scope,
    state: Cycle,
    w: Around,
    t: State,
    r: Result<Val, Fault>,
)
    requires
        p.setup.budget is None,
        s.setup == p.setup,
        at <= state.update.len() <= usize::MAX,
        updates_give(s, at, scope, state, w, t, r),
        reaches(alone(o, jo), w, on(p, Seq::empty().push(k), vs)),
        perform(on(p, Seq::empty(), vs), k, w.f) == cfor_set_next(
            on(s, Seq::empty(), Seq::empty()),
            at as int,
            scope,
            state,
        ),
        s.tasks == o.tasks,
        s.values == o.values,
    ensures
        gives(o, jo, w, t, r),
    decreases state.update.len() - at,
{
    let nil = Seq::<Val>::empty();
    let none = Seq::<Job>::empty();
    let bare = on(s, none, nil);
    assert(back(o, bare) == s);
    if at >= state.update.len() {
        if state.iterations >= MAX_CFOR_ITERATIONS {
            lemma_stops(
                o,
                jo,
                w,
                p,
                k,
                Fault::Eval("For loop counter exceeded limit"@),
                none,
                vs,
            );
        } else {
            let part = Job::LcForCStep(Cycle { iterations: (state.iterations + 1) as u64, ..state });
            lemma_do(alone(o, jo), p, k, w, none, vs);
            assert(bare.task(part).tasks =~= seq![part]);
            assert(bare.task(part) == on(s, seq![part], nil));
            lemma_tail(o, jo, w, s, part, t, r);
        }
    } else {
        let part = Job::Eval(state.update[at as int].value, scope);
        let next = Job::CForSet { at: at as usize, loop_scope: scope, state };
        lemma_do(alone(o, jo), p, k, w, none, vs);
        let y = bare.task(next).task(part);
        assert(y.tasks =~= none.push(next).push(part));
        assert(y == on(s, none.push(next).push(part), nil));
        let (u, q) = choose|u: State, q: Result<Val, Fault>|
            #[trigger] yields(s, state.update[at as int].value, scope, w, u, q) && match q {
                Err(x) => t == u && r == Err::<Val, Fault>(x),
                Ok(a) => {
                    let name = bound_name(state.update[at as int]);
                    let v = u.binding(scope, name, a);
                    updates_give(
                        v,
                        at + 1,
                        v.here(),
                        Cycle { vars: set_var(state.vars, name, a, 0), ..state },
                        w,
                        t,
                        r,
                    )
                },
            };
        match q {
            Err(x) => {
                lemma_fails(o, jo, w, s, part, u, x, none.push(next), nil);
            },
            Ok(a) => {
                lemma_then(alone(o, jo), s, part, w, u, a, none.push(next), nil);
                let got = nil.push(a);
                let name = bound_name(state.update[at as int]);
                let v = u.binding(scope, name, a);
                let z = on(u, none, got);
                assert(z.popped().values =~= nil);
                assert(z.popped() == on(u, none, nil));
                assert(on(u, none, nil).binding(scope, name, a) == on(v, none, nil));
                reveal(perform_cycle);
                lemma_updates(
                    o,
                    jo,
                    u,
                    next,
                    got,
                    v,
                    at + 1,
                    v.here(),
                    Cycle { vars: set_var(state.vars, name, a, 0), ..state },
                    w,
                    t,
                    r,
                );
            },
        }
    }
}

/// The store and the scope of a turn of a C-style loop: a fresh frame with the variables.
pub open spec fn turn_scope(s: State, state: Cycle) -> (State, Scope) {
    let c = s.child(state.outer);
    let (st, scope) = bind_vars(c.store, c.here(), state.vars, state.vars.len());
    (State { store: st, ..c }, scope)
}

/// What a turn of a C-style loop gives once its body has given a value: that is collected, and the
/// updates follow.
pub open spec fn turned_gives(
    s: State,
    a: Val,
    scope: Scope,
    state: Cycle,
    w: Around,
    t: State,
    r: Result<Val, Fault>,
) -> bool {
    if state.splice_item {
        updates_give(
            s.warned(items_warning(a, w.f)),
            0,
            scope,
            Cycle { acc: state.acc + items_of(a, w.f), ..state },
            w,
            t,
            r,
        )
    } else {
        updates_give(s, 0, scope, Cycle { acc: state.acc.push(a), ..state }, w, t, r)
    }
}

/// A turn of a C-style loop: where its condition does not hold, the loop gives what was collected;
/// otherwise the body is evaluated, collected, and the updates lead to the next turn.
pub proof fn law_c_style_turn(
    s: State,
    state: Cycle,
    w: Around,
    u: State,
    q: Result<Val, Fault>,
    z: State,
    b: Result<Val, Fault>,
    t: State,
    r: Result<Val, Fault>,
)
    requires
        s.setup.budget is None,
        state.update.len() <= usize::MAX,
        yields(turn_scope(s, state).0, state.cond, turn_scope(s, state).1, w, u, q),
        match q {
            Err(x) => t == u && r == Err::<Val, Fault>(x),
            Ok(c) => if truthy(c) {
                gives(
                    u,
                    body_job(state.body, state.splice_item, turn_scope(s, state).1),
                    w,
                    z,
                    b,
                ) && match b {
                    Err(x) => t == z && r == Err::<Val, Fault>(x),
                    Ok(a) => turned_gives(z, a, turn_scope(s, state).1, state, w, t, r),
                }
            } else {
                t == u && r == Ok::<Val, Fault>(vector_of(state.acc))
            },
        },
    ensures
        gives(s, Job::LcForCStep(state), w, t, r),
{
    let jo = Job::LcForCStep(state);
    let (s1, scope) = turn_scope(s, state);
    let nil = Seq::<Val>::empty();
    let none = Seq::<Job>::empty();
    let k = Job::CForTest { loop_scope: scope, state };
    let part = Job::Eval(state.cond, scope);
    reveal(perform_cycle);
    lemma_starts(s, jo, w);
    assert(on(s, none, nil).child(state.outer) == on(s.child(state.outer), none, nil));
    let y = perform(on(s, none, nil), jo, w.f).0;
    assert(y.tasks =~= seq![k, part]);
    assert(y == on(s1, seq![k, part], nil));
    lemma_over(s, jo, w, s1, k, part, u, q);
    match q {
        Err(x) => {},
        Ok(c) => {
            let m = on(u, none, seq![c]);
            assert(m.popped().values =~= nil);
            assert(m.popped() == on(u, none, nil));
            let end = perform(m, k, w.f).0;
            if truthy(c) {
                let next = Job::LcForCUpdate { loop_scope: scope, state };
                let turn = body_job(state.body, state.splice_item, scope);
                assert(end.tasks =~= none.push(next).push(turn));
                assert(end == on(u, none.push(next).push(turn), nil));
                match b {
                    Err(x) => {
                        lemma_fails(s, jo, w, u, turn, z, x, none.push(next), nil);
                    },
                    Ok(a) => {
                        lemma_then(alone(s, jo), u, turn, w, z, a, none.push(next), nil);
                        let got = nil.push(a);
                        let n = on(z, none, got);
                        assert(n.popped().values =~= nil);
                        assert(n.popped() == on(z, none, nil));
                        let why = items_warning(a, w.f);
                        assert(on(z, none, nil).warned(why) == on(z.warned(why), none, nil));
                        let (s2, acc) = if state.splice_item {
                            (z.warned(why), state.acc + items_of(a, w.f))
                        } else {
                            (z, state.acc.push(a))
                        };
                        lemma_updates(
                            s,
                            jo,
                            z,
                            next,
                            got,
                            s2,
                            0,
                            scope,
                            Cycle { acc, ..state },
                            w,
                            t,
                            r,
                        );
                    },
                }
            } else {
                let v = vector_of(state.acc);
                assert(end.values =~= seq![v]);
                lemma_ends(s, jo, w, end, v);
                assert(back(s, end) == u);
            }
        },
    }
}

}

//! What a function reaches by name: the names it reads, the functions it calls and the builtins it
//! calls.

use vstd::prelude::*;

use crate::ast::{is_special, same_name, special, Arg, Expr, ExprKind, Name, Parameter, Program, Stmt, StmtKind};
use crate::machine::{known, names_of};
use crate::names::{name_set, NameSet};
use crate::schedule::is_known;

verus! {

/// What one function reaches: its name, its parameters in order, the free names that it reads, the
/// functions that it calls by name, and the builtins that it calls.
#[derive(Debug)]
pub struct Analysis {
    pub name: Name,
    pub params: Vec<Name>,
    pub consts: NameSet,
    pub deps: NameSet,
    pub builtins: NameSet,
}

/// What one function reaches, mathematically.
pub struct Reach {
    pub name: Seq<char>,
    pub params: Seq<Seq<char>>,
    pub consts: Set<Seq<char>>,
    pub deps: Set<Seq<char>>,
    pub builtins: Set<Seq<char>>,
}

impl View for Analysis {
    type V = Reach;

    open spec fn view(&self) -> Reach {
        Reach {
            name: self.name@,
            params: names_of(self.params@),
            consts: self.consts@,
            deps: self.deps@,
            builtins: self.builtins@,
        }
    }
}

impl Analysis {
    /// Whether its sets are in order.
    pub open spec fn ok(self) -> bool {
        self.consts.ok() && self.deps.ok() && self.builtins.ok()
    }
}

/// The names of parameters.
pub open spec fn param_names(params: Seq<Parameter>) -> Seq<Seq<char>> {
    Seq::new(params.len(), |i: int| params[i].name@)
}

/// The names that are bound after the first `n` of some bindings.
pub open spec fn bound_by(bindings: Seq<Arg>, n: nat, b: Set<Seq<char>>) -> Set<Seq<char>>
    decreases n,
{
    if n == 0 {
        b
    } else {
        match bindings[n - 1].name {
            Some(name) => bound_by(bindings, (n - 1) as nat, b).insert(name@),
            None => bound_by(bindings, (n - 1) as nat, b),
        }
    }
}

/// The names that an expression reads freely where the names of `b` are bound. `$`-names are not
/// among them, nor is a name in call position.
pub open spec fn free(e: Expr, b: Set<Seq<char>>) -> Set<Seq<char>>
    decreases e, 0nat,
{
    match e.kind {
        ExprKind::Num(_) => Set::empty(),
        ExprKind::Str(_) => Set::empty(),
        ExprKind::Bool(_) => Set::empty(),
        ExprKind::Undef => Set::empty(),
        ExprKind::Ident(name) => if special(name@) || b.contains(name@) {
            Set::empty()
        } else {
            Set::empty().insert(name@)
        },
        ExprKind::Unary { operand, .. } => free(*operand, b),
        ExprKind::Binary { lhs, rhs, .. } => free(*lhs, b).union(free(*rhs, b)),
        ExprKind::Ternary { cond, yes, no } => free(*cond, b).union(free(*yes, b)).union(
            free(*no, b),
        ),
        ExprKind::Index { base, index } => free(*base, b).union(free(*index, b)),
        ExprKind::Member { base, .. } => free(*base, b),
        ExprKind::Call { callee, args } => if callee.kind is Ident {
            free_args(args@, args@.len(), b)
        } else {
            free(*callee, b).union(free_args(args@, args@.len(), b))
        },
        ExprKind::Vector(items) => free_items(items@, items@.len(), b),
        ExprKind::Range { start, step, end } => match step {
            Some(p) => free(*start, b).union(free(*p, b)).union(free(*end, b)),
            None => free(*start, b).union(free(*end, b)),
        },
        ExprKind::FunctionLiteral { params, body, .. } => {
            let c = b.union(name_set(param_names(params@)));
            free_defaults(params@, params@.len(), c).union(free(*body, c))
        },
        ExprKind::Let { bindings, body } => free_bindings(bindings@, bindings@.len(), b).union(
            free(*body, bound_by(bindings@, bindings@.len(), b)),
        ),
        ExprKind::LcFor { bindings, body } => free_bindings(bindings@, bindings@.len(), b).union(
            free(*body, bound_by(bindings@, bindings@.len(), b)),
        ),
        ExprKind::Assert { args, body, .. } => match body {
            Some(x) => free_args(args@, args@.len(), b).union(free(*x, b)),
            None => free_args(args@, args@.len(), b),
        },
        ExprKind::Echo { args, body } => match body {
            Some(x) => free_args(args@, args@.len(), b).union(free(*x, b)),
            None => free_args(args@, args@.len(), b),
        },
        ExprKind::LcForC { init, cond, update, body } => {
            let c = bound_by(init@, init@.len(), b);
            let d = bound_by(update@, update@.len(), c);
            free_bindings(init@, init@.len(), b).union(
                free_bindings(update@, update@.len(), c),
            ).union(free(*cond, d)).union(free(*body, d))
        },
        ExprKind::LcEach(inner) => free(*inner, b),
        ExprKind::LcIf { cond, yes, no } => match no {
            Some(x) => free(*cond, b).union(free(*yes, b)).union(free(*x, b)),
            None => free(*cond, b).union(free(*yes, b)),
        },
    }
}

/// What the first `n` arguments read freely.
pub open spec fn free_args(args: Seq<Arg>, n: nat, b: Set<Seq<char>>) -> Set<Seq<char>>
    decreases args, n,
{
    if n == 0 || n > args.len() {
        Set::empty()
    } else {
        free_args(args, (n - 1) as nat, b).union(free(args[n - 1].value, b))
    }
}

/// What the first `n` expressions read freely.
pub open spec fn free_items(es: Seq<Expr>, n: nat, b: Set<Seq<char>>) -> Set<Seq<char>>
    decreases es, n,
{
    if n == 0 || n > es.len() {
        Set::empty()
    } else {
        free_items(es, (n - 1) as nat, b).union(free(es[n - 1], b))
    }
}

/// What the defaults of the first `n` parameters read freely.
pub open spec fn free_defaults(params: Seq<Parameter>, n: nat, b: Set<Seq<char>>) -> Set<Seq<char>>
    decreases params, n,
{
    if n == 0 || n > params.len() {
        Set::empty()
    } else {
        match params[n - 1].default {
            Some(d) => free_defaults(params, (n - 1) as nat, b).union(free(d, b)),
            None => free_defaults(params, (n - 1) as nat, b),
        }
    }
}

/// What the first `n` bindings read freely, each where the ones before it are bound.
pub open spec fn free_bindings(bindings: Seq<Arg>, n: nat, b: Set<Seq<char>>) -> Set<Seq<char>>
    decreases bindings, n,
{
    if n == 0 || n > bindings.len() {
        Set::empty()
    } else {
        free_bindings(bindings, (n - 1) as nat, b).union(
            free(bindings[n - 1].value, bound_by(bindings, (n - 1) as nat, b)),
        )
    }
}

/// The names that an expression calls, whatever they are bound to. `$`-names are not among them.
pub open spec fn called(e: Expr) -> Set<Seq<char>>
    decreases e, 0nat,
{
    match e.kind {
        ExprKind::Num(_) => Set::empty(),
        ExprKind::Str(_) => Set::empty(),
        ExprKind::Bool(_) => Set::empty(),
        ExprKind::Undef => Set::empty(),
        ExprKind::Ident(_) => Set::empty(),
        ExprKind::Unary { operand, .. } => called(*operand),
        ExprKind::Binary { lhs, rhs, .. } => called(*lhs).union(called(*rhs)),
        ExprKind::Ternary { cond, yes, no } => called(*cond).union(called(*yes)).union(called(*no)),
        ExprKind::Index { base, index } => called(*base).union(called(*index)),
        ExprKind::Member { base, .. } => called(*base),
        ExprKind::Call { callee, args } => match callee.kind {
            ExprKind::Ident(name) => if special(name@) {
                called_args(args@, args@.len())
            } else {
                called_args(args@, args@.len()).insert(name@)
            },
            _ => called(*callee).union(called_args(args@, args@.len())),
        },
        ExprKind::Vector(items) => called_items(items@, items@.len()),
        ExprKind::Range { start, step, end } => match step {
            Some(p) => called(*start).union(called(*p)).union(called(*end)),
            None => called(*start).union(called(*end)),
        },
        ExprKind::FunctionLiteral { params, body, .. } => called_defaults(
            params@,
            params@.len(),
        ).union(called(*body)),
        ExprKind::Let { bindings, body } => called_args(bindings@, bindings@.len()).union(
            called(*body),
        ),
        ExprKind::LcFor { bindings, body } => called_args(bindings@, bindings@.len()).union(
            called(*body),
        ),
        ExprKind::Assert { args, body, .. } => match body {
            Some(x) => called_args(args@, args@.len()).union(called(*x)),
            None => called_args(args@, args@.len()),
        },
        ExprKind::Echo { args, body } => match body {
            Some(x) => called_args(args@, args@.len()).union(called(*x)),
            None => called_args(args@, args@.len()),
        },
        ExprKind::LcForC { init, cond, update, body } => called_args(init@, init@.len()).union(
            called_args(update@, update@.len()),
        ).union(called(*cond)).union(called(*body)),
        ExprKind::LcEach(inner) => called(*inner),
        ExprKind::LcIf { cond, yes, no } => match no {
            Some(x) => called(*cond).union(called(*yes)).union(called(*x)),
            None => called(*cond).union(called(*yes)),
        },
    }
}

/// The names that the first `n` arguments call.
pub open spec fn called_args(args: Seq<Arg>, n: nat) -> Set<Seq<char>>
    decreases args, n,
{
    if n == 0 || n > args.len() {
        Set::empty()
    } else {
        called_args(args, (n - 1) as nat).union(called(args[n - 1].value))
    }
}

/// The names that the first `n` expressions call.
pub open spec fn called_items(es: Seq<Expr>, n: nat) -> Set<Seq<char>>
    decreases es, n,
{
    if n == 0 || n > es.len() {
        Set::empty()
    } else {
        called_items(es, (n - 1) as nat).union(called(es[n - 1]))
    }
}

/// The names that the defaults of the first `n` parameters call.
pub open spec fn called_defaults(params: Seq<Parameter>, n: nat) -> Set<Seq<char>>
    decreases params, n,
{
    if n == 0 || n > params.len() {
        Set::empty()
    } else {
        match params[n - 1].default {
            Some(d) => called_defaults(params, (n - 1) as nat).union(called(d)),
            None => called_defaults(params, (n - 1) as nat),
        }
    }
}

/// With more names read and called: a call of a builtin counts as one.
pub open spec fn more(r: Reach, reads: Set<Seq<char>>, calls: Set<Seq<char>>, bs: Set<Seq<char>>) -> Reach {
    Reach {
        consts: r.consts.union(reads),
        deps: r.deps.union(calls.difference(bs)),
        builtins: r.builtins.union(calls.intersect(bs)),
        ..r
    }
}

/// One addition after another is one addition.
proof fn lemma_more_more(
    r: Reach,
    a: Set<Seq<char>>,
    c: Set<Seq<char>>,
    a2: Set<Seq<char>>,
    c2: Set<Seq<char>>,
    bs: Set<Seq<char>>,
)
    ensures
        more(more(r, a, c, bs), a2, c2, bs) == more(r, a.union(a2), c.union(c2), bs),
{
    let x = more(more(r, a, c, bs), a2, c2, bs);
    let y = more(r, a.union(a2), c.union(c2), bs);
    assert(x.consts =~= y.consts);
    assert(x.deps =~= y.deps);
    assert(x.builtins =~= y.builtins);
}

/// No addition changes nothing.
proof fn lemma_more_nothing(r: Reach, bs: Set<Seq<char>>)
    ensures
        more(r, Set::empty(), Set::empty(), bs) == r,
{
    let x = more(r, Set::empty(), Set::empty(), bs);
    assert(x.consts =~= r.consts);
    assert(x.deps =~= r.deps);
    assert(x.builtins =~= r.builtins);
}

/// The names that are bound.
pub open spec fn in_scope(scope: Seq<Name>) -> Set<Seq<char>> {
    name_set(names_of(scope))
}

proof fn lemma_in_scope_push(scope: Seq<Name>, n: Name)
    ensures
        in_scope(scope.push(n)) == in_scope(scope).insert(n@),
{
    let a = names_of(scope);
    let b = names_of(scope.push(n));
    assert(b =~= a.push(n@));
    assert forall|x: Seq<char>| known(b, x) == (known(a, x) || x == n@) by {
        if known(a, x) {
            let k = choose|k: int| 0 <= k < a.len() && a[k] == x;
            assert(b[k] == x);
        }
        if known(b, x) {
            let k = choose|k: int| 0 <= k < b.len() && b[k] == x;
            if k < a.len() {
                assert(a[k] == x);
            }
        }
        assert(b[a.len() as int] == n@);
    }
    assert(in_scope(scope.push(n)) =~= in_scope(scope).insert(n@));
}

/// Notes a call by name: of a builtin or of a function. The scope plays no part.
fn record_call(name: &Name, out: &mut Analysis, builtins: &Vec<Name>)
    requires
        old(out).ok(),
    ensures
        final(out).ok(),
        final(out)@ == more(
            old(out)@,
            Set::empty(),
            if special(name@) {
                Set::empty()
            } else {
                Set::empty().insert(name@)
            },
            name_set(names_of(builtins@)),
        ),
{
    let ghost bs = name_set(names_of(builtins@));
    let ghost r = out@;
    let ghost c = Set::<Seq<char>>::empty().insert(name@);
    if is_special(name.as_str()) {
        proof {
            lemma_more_nothing(r, bs);
        }
        return;
    }
    if is_known(builtins, name) {
        out.builtins.insert(name.clone());
        assert(bs.contains(name@));
    } else {
        out.deps.insert(name.clone());
        assert(!bs.contains(name@));
    }
    assert(out@.consts =~= more(r, Set::empty(), c, bs).consts);
    assert(out@.deps =~= more(r, Set::empty(), c, bs).deps);
    assert(out@.builtins =~= more(r, Set::empty(), c, bs).builtins);
}

fn walk_args(args: &Vec<Arg>, scope: &mut Vec<Name>, out: &mut Analysis, builtins: &Vec<Name>)
    requires
        old(out).ok(),
    ensures
        final(scope)@ == old(scope)@,
        final(out).ok(),
        final(out)@ == more(
            old(out)@,
            free_args(args@, args@.len(), in_scope(old(scope)@)),
            called_args(args@, args@.len()),
            name_set(names_of(builtins@)),
        ),
    decreases args@, 1nat,
{
    let ghost bs = name_set(names_of(builtins@));
    let ghost b = in_scope(scope@);
    let ghost r = out@;
    proof {
        lemma_more_nothing(r, bs);
    }
    let mut i: usize = 0;
    while i < args.len()
        invariant
            i <= args@.len(),
            scope@ == old(scope)@,
            b == in_scope(scope@),
            bs == name_set(names_of(builtins@)),
            out.ok(),
            out@ == more(r, free_args(args@, i as nat, b), called_args(args@, i as nat), bs),
        decreases args@.len() - i,
    {
        let ghost e = args@[i as int].value;
        walk(&args[i].value, scope, out, builtins);
        proof {
            lemma_more_more(
                r,
                free_args(args@, i as nat, b),
                called_args(args@, i as nat),
                free(e, b),
                called(e),
                bs,
            );
        }
        i += 1;
    }
}

fn walk_items(items: &Vec<Expr>, scope: &mut Vec<Name>, out: &mut Analysis, builtins: &Vec<Name>)
    requires
        old(out).ok(),
    ensures
        final(scope)@ == old(scope)@,
        final(out).ok(),
        final(out)@ == more(
            old(out)@,
            free_items(items@, items@.len(), in_scope(old(scope)@)),
            called_items(items@, items@.len()),
            name_set(names_of(builtins@)),
        ),
    decreases items@, 1nat,
{
    let ghost bs = name_set(names_of(builtins@));
    let ghost b = in_scope(scope@);
    let ghost r = out@;
    proof {
        lemma_more_nothing(r, bs);
    }
    let mut i: usize = 0;
    while i < items.len()
        invariant
            i <= items@.len(),
            scope@ == old(scope)@,
            b == in_scope(scope@),
            bs == name_set(names_of(builtins@)),
            out.ok(),
            out@ == more(r, free_items(items@, i as nat, b), called_items(items@, i as nat), bs),
        decreases items@.len() - i,
    {
        let ghost e = items@[i as int];
        walk(&items[i], scope, out, builtins);
        proof {
            lemma_more_more(
                r,
                free_items(items@, i as nat, b),
                called_items(items@, i as nat),
                free(e, b),
                called(e),
                bs,
            );
        }
        i += 1;
    }
}

fn walk_defaults(
    params: &Vec<Parameter>,
    scope: &mut Vec<Name>,
    out: &mut Analysis,
    builtins: &Vec<Name>,
)
    requires
        old(out).ok(),
    ensures
        final(scope)@ == old(scope)@,
        final(out).ok(),
        final(out)@ == more(
            old(out)@,
            free_defaults(params@, params@.len(), in_scope(old(scope)@)),
            called_defaults(params@, params@.len()),
            name_set(names_of(builtins@)),
        ),
    decreases params@, 1nat,
{
    let ghost bs = name_set(names_of(builtins@));
    let ghost b = in_scope(scope@);
    let ghost r = out@;
    proof {
        lemma_more_nothing(r, bs);
    }
    let mut i: usize = 0;
    while i < params.len()
        invariant
            i <= params@.len(),
            scope@ == old(scope)@,
            b == in_scope(scope@),
            bs == name_set(names_of(builtins@)),
            out.ok(),
            out@ == more(
                r,
                free_defaults(params@, i as nat, b),
                called_defaults(params@, i as nat),
                bs,
            ),
        decreases params@.len() - i,
    {
        match &params[i].default {
            Some(d) => {
                walk(d, scope, out, builtins);
                proof {
                    lemma_more_more(
                        r,
                        free_defaults(params@, i as nat, b),
                        called_defaults(params@, i as nat),
                        free(*d, b),
                        called(*d),
                        bs,
                    );
                }
            },
            None => {},
        }
        i += 1;
    }
}

/// Walks bindings one after the other, each where the ones before it are bound, and leaves their
/// names in scope.
fn walk_bindings(
    bindings: &Vec<Arg>,
    scope: &mut Vec<Name>,
    out: &mut Analysis,
    builtins: &Vec<Name>,
)
    requires
        old(out).ok(),
    ensures
        old(scope)@.is_prefix_of(final(scope)@),
        in_scope(final(scope)@) == bound_by(bindings@, bindings@.len(), in_scope(old(scope)@)),
        final(out).ok(),
        final(out)@ == more(
            old(out)@,
            free_bindings(bindings@, bindings@.len(), in_scope(old(scope)@)),
            called_args(bindings@, bindings@.len()),
            name_set(names_of(builtins@)),
        ),
    decreases bindings@, 1nat,
{
    let ghost bs = name_set(names_of(builtins@));
    let ghost b = in_scope(scope@);
    let ghost r = out@;
    proof {
        lemma_more_nothing(r, bs);
    }
    let mut i: usize = 0;
    while i < bindings.len()
        invariant
            i <= bindings@.len(),
            old(scope)@.is_prefix_of(scope@),
            b == in_scope(old(scope)@),
            in_scope(scope@) == bound_by(bindings@, i as nat, b),
            bs == name_set(names_of(builtins@)),
            out.ok(),
            out@ == more(
                r,
                free_bindings(bindings@, i as nat, b),
                called_args(bindings@, i as nat),
                bs,
            ),
        decreases bindings@.len() - i,
    {
        let ghost e = bindings@[i as int].value;
        let ghost before = scope@;
        walk(&bindings[i].value, scope, out, builtins);
        proof {
            lemma_more_more(
                r,
                free_bindings(bindings@, i as nat, b),
                called_args(bindings@, i as nat),
                free(e, in_scope(before)),
                called(e),
                bs,
            );
        }
        match &bindings[i].name {
            Some(n) => {
                proof {
                    lemma_in_scope_push(scope@, *n);
                }
                scope.push(n.clone());
            },
            None => {},
        }
        i += 1;
    }
}

fn push_params(params: &Vec<Parameter>, scope: &mut Vec<Name>)
    ensures
        old(scope)@.is_prefix_of(final(scope)@),
        in_scope(final(scope)@) == in_scope(old(scope)@).union(name_set(param_names(params@))),
        names_of(final(scope)@) == names_of(old(scope)@) + param_names(params@),
{
    let ghost all = param_names(params@);
    let ghost b = in_scope(scope@);
    let ghost before = names_of(scope@);
    let mut i: usize = 0;
    assert(b =~= b.union(name_set(all.take(0))));
    assert(before =~= before + all.take(0));
    while i < params.len()
        invariant
            i <= params@.len(),
            all == param_names(params@),
            old(scope)@.is_prefix_of(scope@),
            b == in_scope(old(scope)@),
            in_scope(scope@) =~= b.union(name_set(all.take(i as int))),
            names_of(scope@) =~= before + all.take(i as int),
        decreases params@.len() - i,
    {
        proof {
            lemma_in_scope_push(scope@, params@[i as int].name);
            let t = all.take(i as int);
            let u = all.take(i + 1);
            assert(u =~= t.push(all[i as int]));
            assert forall|n: Seq<char>| known(u, n) == (known(t, n) || n == all[i as int]) by {
                if known(t, n) {
                    let k = choose|k: int| 0 <= k < t.len() && t[k] == n;
                    assert(u[k] == n);
                }
                if known(u, n) {
                    let k = choose|k: int| 0 <= k < u.len() && u[k] == n;
                    if k < i {
                        assert(t[k] == n);
                    }
                }
                assert(u[i as int] == all[i as int]);
            }
        }
        let ghost was = scope@;
        scope.push(params[i].name.clone());
        assert(names_of(scope@) =~= names_of(was).push(all[i as int]));
        i += 1;
    }
    assert(all.take(all.len() as int) =~= all);
}

/// Notes what an expression reads and calls. The scope is as it was when it is done.
pub fn walk(e: &Expr, scope: &mut Vec<Name>, out: &mut Analysis, builtins: &Vec<Name>)
    requires
        old(out).ok(),
    ensures
        final(scope)@ == old(scope)@,
        final(out).ok(),
        final(out)@ == more(
            old(out)@,
            free(*e, in_scope(old(scope)@)),
            called(*e),
            name_set(names_of(builtins@)),
        ),
    decreases e, 0nat,
{
    let ghost bs = name_set(names_of(builtins@));
    let ghost b = in_scope(scope@);
    let ghost r = out@;
    proof {
        lemma_more_nothing(r, bs);
    }
    let mark: usize = scope.len();
    match &e.kind {
        ExprKind::Num(_) => {},
        ExprKind::Str(_) => {},
        ExprKind::Bool(_) => {},
        ExprKind::Undef => {},
        ExprKind::Ident(name) => {
            if !is_special(name.as_str()) && !is_known(scope, name) {
                out.consts.insert(name.clone());
                proof {
                    let x = more(r, Set::empty().insert(name@), Set::empty(), bs);
                    assert(out@.consts =~= x.consts);
                    assert(out@.deps =~= x.deps);
                    assert(out@.builtins =~= x.builtins);
                }
            }
        },
        ExprKind::Unary { operand, .. } => {
            walk(operand, scope, out, builtins);
        },
        ExprKind::Binary { lhs, rhs, .. } => {
            walk(lhs, scope, out, builtins);
            walk(rhs, scope, out, builtins);
            proof {
                lemma_more_more(r, free(**lhs, b), called(**lhs), free(**rhs, b), called(**rhs), bs);
            }
        },
        ExprKind::Ternary { cond, yes, no } => {
            walk(cond, scope, out, builtins);
            walk(yes, scope, out, builtins);
            walk(no, scope, out, builtins);
            proof {
                lemma_more_more(r, free(**cond, b), called(**cond), free(**yes, b), called(**yes), bs);
                lemma_more_more(
                    r,
                    free(**cond, b).union(free(**yes, b)),
                    called(**cond).union(called(**yes)),
                    free(**no, b),
                    called(**no),
                    bs,
                );
            }
        },
        ExprKind::Index { base, index } => {
            walk(base, scope, out, builtins);
            walk(index, scope, out, builtins);
            proof {
                lemma_more_more(
                    r,
                    free(**base, b),
                    called(**base),
                    free(**index, b),
                    called(**index),
                    bs,
                );
            }
        },
        ExprKind::Member { base, .. } => {
            walk(base, scope, out, builtins);
        },
        ExprKind::Call { callee, args } => {
            let ghost fa = free_args(args@, args@.len(), b);
            let ghost ca = called_args(args@, args@.len());
            match &callee.kind {
                ExprKind::Ident(name) => {
                    record_call(name, out, builtins);
                    walk_args(args, scope, out, builtins);
                    proof {
                        let one = if special(name@) {
                            Set::<Seq<char>>::empty()
                        } else {
                            Set::empty().insert(name@)
                        };
                        lemma_more_more(r, Set::empty(), one, fa, ca, bs);
                        assert(Set::<Seq<char>>::empty().union(fa) =~= fa);
                        assert(one.union(ca) =~= called(*e));
                    }
                },
                _ => {
                    walk(callee, scope, out, builtins);
                    walk_args(args, scope, out, builtins);
                    proof {
                        lemma_more_more(r, free(**callee, b), called(**callee), fa, ca, bs);
                    }
                },
            }
        },
        ExprKind::Vector(items) => {
            walk_items(items, scope, out, builtins);
        },
        ExprKind::Range { start, step, end } => {
            walk(start, scope, out, builtins);
            match step {
                Some(p) => {
                    walk(p, scope, out, builtins);
                    walk(end, scope, out, builtins);
                    proof {
                        lemma_more_more(
                            r,
                            free(**start, b),
                            called(**start),
                            free(**p, b),
                            called(**p),
                            bs,
                        );
                        lemma_more_more(
                            r,
                            free(**start, b).union(free(**p, b)),
                            called(**start).union(called(**p)),
                            free(**end, b),
                            called(**end),
                            bs,
                        );
                    }
                },
                None => {
                    walk(end, scope, out, builtins);
                    proof {
                        lemma_more_more(
                            r,
                            free(**start, b),
                            called(**start),
                            free(**end, b),
                            called(**end),
                            bs,
                        );
                    }
                },
            }
        },
        ExprKind::FunctionLiteral { params, body, .. } => {
            push_params(params, scope);
            let ghost c = in_scope(scope@);
            walk_defaults(params, scope, out, builtins);
            walk(body, scope, out, builtins);
            scope.truncate(mark);
            assert(scope@ =~= old(scope)@);
            proof {
                lemma_more_more(
                    r,
                    free_defaults(params@, params@.len(), c),
                    called_defaults(params@, params@.len()),
                    free(**body, c),
                    called(**body),
                    bs,
                );
            }
        },
        ExprKind::Let { bindings, body } => {
            walk_bindings(bindings, scope, out, builtins);
            let ghost c = in_scope(scope@);
            walk(body, scope, out, builtins);
            scope.truncate(mark);
            assert(scope@ =~= old(scope)@);
            proof {
                lemma_more_more(
                    r,
                    free_bindings(bindings@, bindings@.len(), b),
                    called_args(bindings@, bindings@.len()),
                    free(**body, c),
                    called(**body),
                    bs,
                );
            }
        },
        ExprKind::LcFor { bindings, body } => {
            walk_bindings(bindings, scope, out, builtins);
            let ghost c = in_scope(scope@);
            walk(body, scope, out, builtins);
            scope.truncate(mark);
            assert(scope@ =~= old(scope)@);
            proof {
                lemma_more_more(
                    r,
                    free_bindings(bindings@, bindings@.len(), b),
                    called_args(bindings@, bindings@.len()),
                    free(**body, c),
                    called(**body),
                    bs,
                );
            }
        },
        ExprKind::Assert { args, body, .. } => {
            walk_args(args, scope, out, builtins);
            match body {
                Some(x) => {
                    walk(x, scope, out, builtins);
                    proof {
                        lemma_more_more(
                            r,
                            free_args(args@, args@.len(), b),
                            called_args(args@, args@.len()),
                            free(**x, b),
                            called(**x),
                            bs,
                        );
                    }
                },
                None => {},
            }
        },
        ExprKind::Echo { args, body } => {
            walk_args(args, scope, out, builtins);
            match body {
                Some(x) => {
                    walk(x, scope, out, builtins);
                    proof {
                        lemma_more_more(
                            r,
                            free_args(args@, args@.len(), b),
                            called_args(args@, args@.len()),
                            free(**x, b),
                            called(**x),
                            bs,
                        );
                    }
                },
                None => {},
            }
        },
        ExprKind::LcForC { init, cond, update, body } => {
            walk_bindings(init, scope, out, builtins);
            let ghost c = in_scope(scope@);
            walk_bindings(update, scope, out, builtins);
            let ghost d = in_scope(scope@);
            walk(cond, scope, out, builtins);
            walk(body, scope, out, builtins);
            scope.truncate(mark);
            assert(scope@ =~= old(scope)@);
            proof {
                let f1 = free_bindings(init@, init@.len(), b);
                let f2 = free_bindings(update@, update@.len(), c);
                let c1 = called_args(init@, init@.len());
                let c2 = called_args(update@, update@.len());
                lemma_more_more(r, f1, c1, f2, c2, bs);
                lemma_more_more(r, f1.union(f2), c1.union(c2), free(**cond, d), called(**cond), bs);
                lemma_more_more(
                    r,
                    f1.union(f2).union(free(**cond, d)),
                    c1.union(c2).union(called(**cond)),
                    free(**body, d),
                    called(**body),
                    bs,
                );
            }
        },
        ExprKind::LcEach(inner) => {
            walk(inner, scope, out, builtins);
        },
        ExprKind::LcIf { cond, yes, no } => {
            walk(cond, scope, out, builtins);
            walk(yes, scope, out, builtins);
            proof {
                lemma_more_more(r, free(**cond, b), called(**cond), free(**yes, b), called(**yes), bs);
            }
            match no {
                Some(x) => {
                    walk(x, scope, out, builtins);
                    proof {
                        lemma_more_more(
                            r,
                            free(**cond, b).union(free(**yes, b)),
                            called(**cond).union(called(**yes)),
                            free(**x, b),
                            called(**x),
                            bs,
                        );
                    }
                },
                None => {},
            }
        },
    }
}

/// What a function reaches: its parameters are bound in its defaults and in its body, and a call of
/// itself is no dependency.
pub open spec fn reach_of(
    name: Seq<char>,
    params: Seq<Parameter>,
    body: Expr,
    bs: Set<Seq<char>>,
) -> Reach {
    let c = name_set(param_names(params));
    let calls = called_defaults(params, params.len()).union(called(body));
    Reach {
        name,
        params: param_names(params),
        consts: free_defaults(params, params.len(), c).union(free(body, c)),
        deps: calls.difference(bs).remove(name),
        builtins: calls.intersect(bs),
    }
}

/// How many functions the first `n` statements define.
pub open spec fn fn_count(ss: Seq<Stmt>, n: nat) -> nat
    decreases n,
{
    if n == 0 {
        0
    } else {
        fn_count(ss, (n - 1) as nat) + if ss[n - 1].kind is FunctionDef {
            1nat
        } else {
            0nat
        }
    }
}

/// What the first function reaches that is defined from the `i`-th statement on.
pub open spec fn first_reach(ss: Seq<Stmt>, i: int, bs: Set<Seq<char>>) -> Option<Reach>
    decreases ss.len() - i,
{
    if i >= ss.len() {
        None
    } else {
        match ss[i].kind {
            StmtKind::FunctionDef { name, params, body, .. } => Some(
                reach_of(name@, params@, body, bs),
            ),
            _ => first_reach(ss, i + 1, bs),
        }
    }
}

/// What the one function of a program reaches; an error where it defines none or more than one.
pub open spec fn analyzed(ss: Seq<Stmt>, bs: Set<Seq<char>>) -> Result<Reach, Seq<char>> {
    if fn_count(ss, ss.len()) == 0 {
        Err("reference holds no function definition"@)
    } else if fn_count(ss, ss.len()) > 1 {
        Err("reference holds more than one function definition"@)
    } else {
        Ok(first_reach(ss, 0, bs)->Some_0)
    }
}

/// An analysis, or why there is none.
pub open spec fn reach_res(r: Result<Analysis, String>) -> Result<Reach, Seq<char>> {
    match r {
        Ok(a) => Ok(a@),
        Err(e) => Err(e@),
    }
}

fn analyze_one(name: &Name, params: &Vec<Parameter>, body: &Expr, builtins: &Vec<Name>) -> (r:
    Analysis)
    ensures
        r@ == reach_of(name@, params@, *body, name_set(names_of(builtins@))),
        r.ok(),
{
    let ghost bs = name_set(names_of(builtins@));
    let mut scope: Vec<Name> = Vec::new();
    let ghost nothing = in_scope(scope@);
    assert(nothing =~= Set::<Seq<char>>::empty());
    assert(names_of(scope@) =~= Seq::<Seq<char>>::empty());
    push_params(params, &mut scope);
    let ghost c = name_set(param_names(params@));
    assert(in_scope(scope@) =~= c);
    let mut own: Vec<Name> = Vec::new();
    assert(names_of(own@) =~= Seq::<Seq<char>>::empty());
    push_params(params, &mut own);
    assert(names_of(own@) =~= param_names(params@));
    let mut out = Analysis {
        name: name.clone(),
        params: own,
        consts: NameSet::new(),
        deps: NameSet::new(),
        builtins: NameSet::new(),
    };
    let ghost start = out@;
    walk_defaults(params, &mut scope, &mut out, builtins);
    walk(body, &mut scope, &mut out, builtins);
    let ghost fd = free_defaults(params@, params@.len(), c);
    let ghost cd = called_defaults(params@, params@.len());
    proof {
        lemma_more_more(start, fd, cd, free(*body, c), called(*body), bs);
    }
    out.deps.remove(name);
    proof {
        let want = reach_of(name@, params@, *body, bs);
        assert(out@.consts =~= want.consts);
        assert(out@.deps =~= want.deps);
        assert(out@.builtins =~= want.builtins);
        assert(out@.params =~= want.params);
    }
    out
}

/// What the one function of a program reaches. A program that defines none, or more than one, is
/// refused.
pub fn analyze_function(prog: &Program, builtins: &Vec<Name>) -> (r: Result<Analysis, String>)
    ensures
        reach_res(r) == analyzed(prog.stmts@, name_set(names_of(builtins@))),
        r matches Ok(a) ==> a.ok(),
{
    let ghost bs = name_set(names_of(builtins@));
    let ghost ss = prog.stmts@;
    let mut found: Option<Analysis> = None;
    let mut i: usize = 0;
    while i < prog.stmts.len()
        invariant
            i <= ss.len(),
            ss == prog.stmts@,
            bs == name_set(names_of(builtins@)),
            found is None ==> fn_count(ss, i as nat) == 0 && first_reach(ss, 0, bs)
                == first_reach(ss, i as int, bs),
            found matches Some(a) ==> a.ok() && fn_count(ss, i as nat) == 1 && first_reach(
                ss,
                0,
                bs,
            ) == Some(a@),
        decreases ss.len() - i,
    {
        match &prog.stmts[i].kind {
            StmtKind::FunctionDef { name, params, body, .. } => {
                if found.is_some() {
                    proof {
                        lemma_fn_count_grows(ss, (i + 1) as nat, ss.len());
                    }
                    return Err("reference holds more than one function definition".to_owned());
                }
                found = Some(analyze_one(name, params, body, builtins));
            },
            _ => {},
        }
        i += 1;
    }
    match found {
        Some(a) => Ok(a),
        None => Err("reference holds no function definition".to_owned()),
    }
}

proof fn lemma_fn_count_grows(ss: Seq<Stmt>, n: nat, m: nat)
    requires
        n <= m,
    ensures
        fn_count(ss, n) <= fn_count(ss, m),
    decreases m,
{
    if n < m {
        lemma_fn_count_grows(ss, n, (m - 1) as nat);
    }
}

/// Programs by the names of the functions they define, mathematically.
pub open spec fn table_of(t: Seq<(Name, Program)>) -> Seq<(Seq<char>, Seq<Stmt>)> {
    Seq::new(t.len(), |i: int| (t[i].0@, t[i].1.stmts@))
}

/// The program of a name: the first of that name, from the `i`-th on.
pub open spec fn source_from(t: Seq<(Seq<char>, Seq<Stmt>)>, name: Seq<char>, i: int) -> Option<int>
    decreases t.len() - i,
{
    if i >= t.len() {
        None
    } else if t[i].0 == name {
        Some(i)
    } else {
        source_from(t, name, i + 1)
    }
}

/// What the program of a name reaches, where there is one.
pub open spec fn source_reach(
    t: Seq<(Seq<char>, Seq<Stmt>)>,
    bs: Set<Seq<char>>,
    name: Seq<char>,
) -> Option<Result<Reach, Seq<char>>> {
    match source_from(t, name, 0) {
        Some(i) => Some(analyzed(t[i].1, bs)),
        None => None,
    }
}

/// Whether the program of one name calls another.
pub open spec fn calls(
    t: Seq<(Seq<char>, Seq<Stmt>)>,
    bs: Set<Seq<char>>,
    from: Seq<char>,
    to: Seq<char>,
) -> bool {
    source_reach(t, bs, from) matches Some(Ok(q)) && q.deps.contains(to)
}

/// Whether a name is reached from some names in at most `k` calls.
pub open spec fn reached_in(
    t: Seq<(Seq<char>, Seq<Stmt>)>,
    bs: Set<Seq<char>>,
    roots: Set<Seq<char>>,
    name: Seq<char>,
    k: nat,
) -> bool
    decreases k,
{
    if k == 0 {
        roots.contains(name)
    } else {
        reached_in(t, bs, roots, name, (k - 1) as nat) || exists|from: Seq<char>|
            reached_in(t, bs, roots, from, (k - 1) as nat) && #[trigger] calls(t, bs, from, name)
    }
}

/// The names that are reached from some names by calls, those names themselves among them.
pub open spec fn reached(
    t: Seq<(Seq<char>, Seq<Stmt>)>,
    bs: Set<Seq<char>>,
    roots: Set<Seq<char>>,
) -> Set<Seq<char>> {
    Set::new(|n: Seq<char>| exists|k: nat| reached_in(t, bs, roots, n, k))
}

/// The builtins that the programs of some names call.
pub open spec fn builtins_below(
    t: Seq<(Seq<char>, Seq<Stmt>)>,
    bs: Set<Seq<char>>,
    names: Set<Seq<char>>,
) -> Set<Seq<char>> {
    Set::new(
        |b: Seq<char>|
            exists|n: Seq<char>| #[trigger]
                names.contains(n) && (source_reach(t, bs, n) matches Some(Ok(q))
                    && q.builtins.contains(b)),
    )
}

/// What a function reaches with everything that it calls: all dependencies of its dependencies are
/// its own, and so are the builtins that they call. The names they read are not.
pub open spec fn closed_reach(
    a: Reach,
    t: Seq<(Seq<char>, Seq<Stmt>)>,
    bs: Set<Seq<char>>,
) -> Reach {
    let all = reached(t, bs, a.deps);
    Reach {
        deps: all.remove(a.name),
        builtins: a.builtins.union(builtins_below(t, bs, all)),
        ..a
    }
}

/// Whether a set of names holds all that its programs call.
spec fn closed_under(t: Seq<(Seq<char>, Seq<Stmt>)>, bs: Set<Seq<char>>, names: Set<Seq<char>>) -> bool {
    forall|from: Seq<char>, to: Seq<char>| #[trigger]
        calls(t, bs, from, to) && names.contains(from) ==> names.contains(to)
}

proof fn lemma_closed_holds_reached(
    t: Seq<(Seq<char>, Seq<Stmt>)>,
    bs: Set<Seq<char>>,
    roots: Set<Seq<char>>,
    names: Set<Seq<char>>,
    name: Seq<char>,
    k: nat,
)
    requires
        closed_under(t, bs, names),
        roots.subset_of(names),
        reached_in(t, bs, roots, name, k),
    ensures
        names.contains(name),
    decreases k,
{
    if k > 0 {
        if reached_in(t, bs, roots, name, (k - 1) as nat) {
            lemma_closed_holds_reached(t, bs, roots, names, name, (k - 1) as nat);
        } else {
            let from = choose|from: Seq<char>|
                reached_in(t, bs, roots, from, (k - 1) as nat) && #[trigger] calls(
                    t,
                    bs,
                    from,
                    name,
                );
            lemma_closed_holds_reached(t, bs, roots, names, from, (k - 1) as nat);
        }
    }
}

/// What a reached program calls is reached.
pub proof fn law_reached_is_closed(
    t: Seq<(Seq<char>, Seq<Stmt>)>,
    bs: Set<Seq<char>>,
    roots: Set<Seq<char>>,
    from: Seq<char>,
    to: Seq<char>,
)
    requires
        reached(t, bs, roots).contains(from),
        calls(t, bs, from, to),
    ensures
        reached(t, bs, roots).contains(to),
{
    let k = choose|k: nat| reached_in(t, bs, roots, from, k);
    assert(reached_in(t, bs, roots, to, k + 1));
}

fn find_source(sources: &Vec<(Name, Program)>, name: &Name) -> (r: Option<usize>)
    ensures
        match r {
            Some(i) => i < sources@.len() && source_from(table_of(sources@), name@, 0) == Some(
                i as int,
            ) && table_of(sources@)[i as int].0 == name@,
            None => source_from(table_of(sources@), name@, 0) is None,
        },
{
    let ghost t = table_of(sources@);
    let mut i: usize = 0;
    while i < sources.len()
        invariant
            i <= sources@.len(),
            t == table_of(sources@),
            source_from(t, name@, 0) == source_from(t, name@, i as int),
        decreases sources@.len() - i,
    {
        assert(t[i as int].0 == sources@[i as int].0@);
        if same_name(&sources[i].0, name) {
            return Some(i);
        }
        i += 1;
    }
    None
}

/// How many are not done.
spec fn undone(done: Seq<bool>) -> nat
    decreases done.len(),
{
    if done.len() == 0 {
        0
    } else {
        undone(done.drop_last()) + if done.last() {
            0nat
        } else {
            1nat
        }
    }
}

proof fn lemma_undone_less(done: Seq<bool>, i: int)
    requires
        0 <= i < done.len(),
        !done[i],
    ensures
        undone(done.update(i, true)) < undone(done),
    decreases done.len(),
{
    let d = done.update(i, true);
    if i == done.len() - 1 {
        assert(d.drop_last() =~= done.drop_last());
    } else {
        assert(d.drop_last() =~= done.drop_last().update(i, true));
        lemma_undone_less(done.drop_last(), i);
    }
}

/// The first name of a set whose program is there and not done, with the place of the program.
fn next_undone(seen: &NameSet, sources: &Vec<(Name, Program)>, done: &Vec<bool>) -> (r: Option<
    usize,
>)
    requires
        done@.len() == sources@.len(),
    ensures
        match r {
            Some(i) => i < sources@.len() && !done@[i as int] && seen@.contains(
                table_of(sources@)[i as int].0,
            ) && source_from(
                table_of(sources@),
                table_of(sources@)[i as int].0,
                0,
            ) == Some(i as int),
            None => forall|n: Seq<char>| #[trigger]
                seen@.contains(n) ==> (source_from(table_of(sources@), n, 0) matches Some(i)
                    ==> done@[i]),
        },
{
    let ghost t = table_of(sources@);
    let mut p: usize = 0;
    while p < seen.len()
        invariant
            p <= seen.list().len(),
            done@.len() == sources@.len(),
            t == table_of(sources@),
            forall|k: int|
                0 <= k < p ==> (source_from(t, #[trigger] seen.list()[k], 0) matches Some(i)
                    ==> done@[i]),
        decreases seen.list().len() - p,
    {
        match find_source(sources, seen.get(p)) {
            Some(i) => {
                if !done[i] {
                    return Some(i);
                }
            },
            None => {},
        }
        p += 1;
    }
    proof {
        assert forall|n: Seq<char>| #[trigger] seen@.contains(n) implies (source_from(
            t,
            n,
            0,
        ) matches Some(i) ==> done@[i]) by {
            let k = seen.lemma_listed(n);
            assert(seen.list()[k] == n);
        }
    }
    None
}

/// Whether a program that is reached from some names is refused with a given text.
pub open spec fn refused_below(
    t: Seq<(Seq<char>, Seq<Stmt>)>,
    bs: Set<Seq<char>>,
    roots: Set<Seq<char>>,
    text: Seq<char>,
) -> bool {
    exists|n: Seq<char>| #[trigger]
        reached(t, bs, roots).contains(n) && source_reach(t, bs, n) == Some(
            Err::<Reach, Seq<char>>(text),
        )
}

/// What a done program brought in.
spec fn brought(t: Seq<(Seq<char>, Seq<Stmt>)>, bs: Set<Seq<char>>, i: int, seen: Set<Seq<char>>, found: Set<Seq<char>>) -> bool {
    &&& source_from(t, t[i].0, 0) == Some(i)
    &&& seen.contains(t[i].0)
    &&& analyzed(t[i].1, bs) matches Ok(q) && q.deps.subset_of(seen) && q.builtins.subset_of(found)
}

/// What a function reaches with everything that it calls. `sources` holds the programs of the
/// functions that are known; a dependency without one stays a dependency. A known program that is
/// reached and refused is an error.
#[verifier::spinoff_prover]
pub fn analyze_closed(prog: &Program, sources: &Vec<(Name, Program)>, builtins: &Vec<Name>) -> (r:
    Result<Analysis, String>)
    ensures
        ({
            let bs = name_set(names_of(builtins@));
            let t = table_of(sources@);
            match analyzed(prog.stmts@, bs) {
                Err(e) => reach_res(r) == Err::<Reach, Seq<char>>(e),
                Ok(a) => match r {
                    Ok(out) => {
                        &&& out.ok()
                        &&& out@ == closed_reach(a, t, bs)
                        &&& forall|n: Seq<char>| #[trigger]
                            reached(t, bs, a.deps).contains(n) ==> !(source_reach(
                                t,
                                bs,
                                n,
                            ) matches Some(Err(_)))
                    },
                    Err(e) => refused_below(t, bs, a.deps, e@),
                },
            }
        }),
{
    let ghost bs = name_set(names_of(builtins@));
    let ghost t = table_of(sources@);
    let mut out: Analysis = match analyze_function(prog, builtins) {
        Ok(a) => a,
        Err(e) => {
            return Err(e);
        },
    };
    let ghost a = out@;
    let ghost all = reached(t, bs, a.deps);
    let mut done: Vec<bool> = Vec::new();
    let mut j: usize = 0;
    while j < sources.len()
        invariant
            j <= sources@.len(),
            done@.len() == j,
            forall|k: int| 0 <= k < j ==> !#[trigger] done@[k],
        decreases sources@.len() - j,
    {
        done.push(false);
        j += 1;
    }
    proof {
        assert forall|n: Seq<char>| a.deps.contains(n) implies all.contains(n) by {
            assert(reached_in(t, bs, a.deps, n, 0));
        }
    }
    loop
        invariant
            bs == name_set(names_of(builtins@)),
            t == table_of(sources@),
            analyzed(prog.stmts@, bs) == Ok::<Reach, Seq<char>>(a),
            all == reached(t, bs, a.deps),
            done@.len() == sources@.len(),
            out.ok(),
            out@.name == a.name,
            out@.params == a.params,
            out@.consts == a.consts,
            a.deps.subset_of(out@.deps),
            out@.deps.subset_of(all),
            a.builtins.subset_of(out@.builtins),
            out@.builtins.subset_of(a.builtins.union(builtins_below(t, bs, all))),
            forall|i: int|
                0 <= i < done@.len() && #[trigger] done@[i] ==> brought(
                    t,
                    bs,
                    i,
                    out@.deps,
                    out@.builtins,
                ),
        ensures
            forall|n: Seq<char>| #[trigger]
                out@.deps.contains(n) ==> (source_from(t, n, 0) matches Some(i) ==> done@[i]),
        decreases undone(done@),
    {
        match next_undone(&out.deps, sources, &done) {
            None => {
                break;
            },
            Some(i) => {
                let ghost n = t[i as int].0;
                assert(t[i as int].1 == sources@[i as int].1.stmts@);
                assert(source_reach(t, bs, n) == Some(analyzed(t[i as int].1, bs)));
                match analyze_function(&sources[i].1, builtins) {
                    Err(e) => {
                        assert(all.contains(n));
                        assert(source_reach(t, bs, n) == Some(Err::<Reach, Seq<char>>(e@)));
                        assert(refused_below(t, bs, a.deps, e@));
                        return Err(e);
                    },
                    Ok(sub) => {
                        proof {
                            assert forall|d: Seq<char>| sub@.deps.contains(d) implies all.contains(
                                d,
                            ) by {
                                assert(calls(t, bs, n, d));
                                law_reached_is_closed(t, bs, a.deps, n, d);
                            }
                            assert forall|b: Seq<char>| sub@.builtins.contains(
                                b,
                            ) implies builtins_below(t, bs, all).contains(b) by {
                                assert(all.contains(n));
                            }
                        }
                        let ghost before = out@;
                        let ghost was = done@;
                        out.builtins.extend(&sub.builtins);
                        out.deps.extend(&sub.deps);
                        done.set(i, true);
                        proof {
                            lemma_undone_less(was, i as int);
                            assert forall|k: int|
                                0 <= k < done@.len() && #[trigger] done@[k] implies brought(
                                t,
                                bs,
                                k,
                                out@.deps,
                                out@.builtins,
                            ) by {
                                if k != i {
                                    assert(was[k]);
                                    assert(brought(t, bs, k, before.deps, before.builtins));
                                }
                            }
                        }
                    },
                }
            },
        }
    }
    proof {
        let seen = out@.deps;
        assert forall|from: Seq<char>, to: Seq<char>| #[trigger] calls(
            t,
            bs,
            from,
            to,
        ) && seen.contains(from) implies seen.contains(to) by {
            let i = source_from(t, from, 0)->Some_0;
            lemma_source_place(t, from, 0);
            assert(done@[i]);
            assert(brought(t, bs, i, seen, out@.builtins));
        }
        assert forall|n: Seq<char>| all.contains(n) implies seen.contains(n) by {
            let k = choose|k: nat| reached_in(t, bs, a.deps, n, k);
            lemma_closed_holds_reached(t, bs, a.deps, seen, n, k);
        }
        assert(seen =~= all);
        assert forall|n: Seq<char>| #[trigger] all.contains(n) implies !(source_reach(
            t,
            bs,
            n,
        ) matches Some(Err(_))) by {
            assert(seen.contains(n));
            if source_from(t, n, 0) is Some {
                let i = source_from(t, n, 0)->Some_0;
                lemma_source_place(t, n, 0);
                assert(done@[i]);
                assert(brought(t, bs, i, seen, out@.builtins));
            }
        }
        assert forall|b: Seq<char>| builtins_below(t, bs, all).contains(
            b,
        ) implies out@.builtins.contains(b) by {
            let n = choose|n: Seq<char>| #[trigger]
                all.contains(n) && (source_reach(t, bs, n) matches Some(Ok(q))
                    && q.builtins.contains(b));
            let i = source_from(t, n, 0)->Some_0;
            lemma_source_place(t, n, 0);
            assert(seen.contains(n));
            assert(done@[i]);
            assert(brought(t, bs, i, seen, out@.builtins));
        }
        assert(out@.builtins =~= a.builtins.union(builtins_below(t, bs, all)));
    }
    let own: Name = out.name.clone();
    out.deps.remove(&own);
    Ok(out)
}

proof fn lemma_source_place(t: Seq<(Seq<char>, Seq<Stmt>)>, name: Seq<char>, i: int)
    requires
        0 <= i,
    ensures
        source_from(t, name, i) matches Some(k) ==> i <= k < t.len() && t[k].0 == name,
    decreases t.len() - i,
{
    if i < t.len() && t[i].0 != name {
        lemma_source_place(t, name, i + 1);
    }
}

/// Where more names are bound, an expression reads no more names freely.
pub proof fn law_more_bound_reads_less(e: Expr, b: Set<Seq<char>>, c: Set<Seq<char>>)
    requires
        b.subset_of(c),
    ensures
        free(e, c).subset_of(free(e, b)),
    decreases e, 0nat,
{
    match e.kind {
        ExprKind::Unary { operand, .. } => law_more_bound_reads_less(*operand, b, c),
        ExprKind::Binary { lhs, rhs, .. } => {
            law_more_bound_reads_less(*lhs, b, c);
            law_more_bound_reads_less(*rhs, b, c);
        },
        ExprKind::Ternary { cond, yes, no } => {
            law_more_bound_reads_less(*cond, b, c);
            law_more_bound_reads_less(*yes, b, c);
            law_more_bound_reads_less(*no, b, c);
        },
        ExprKind::Index { base, index } => {
            law_more_bound_reads_less(*base, b, c);
            law_more_bound_reads_less(*index, b, c);
        },
        ExprKind::Member { base, .. } => law_more_bound_reads_less(*base, b, c),
        ExprKind::Call { callee, args } => {
            law_more_bound_reads_less(*callee, b, c);
            lemma_args_read_less(args@, args@.len(), b, c);
        },
        ExprKind::Vector(items) => lemma_items_read_less(items@, items@.len(), b, c),
        ExprKind::Range { start, step, end } => {
            law_more_bound_reads_less(*start, b, c);
            law_more_bound_reads_less(*end, b, c);
            match step {
                Some(p) => law_more_bound_reads_less(*p, b, c),
                None => {},
            }
        },
        ExprKind::FunctionLiteral { params, body, .. } => {
            let ps = name_set(param_names(params@));
            assert(b.union(ps).subset_of(c.union(ps)));
            lemma_defaults_read_less(params@, params@.len(), b.union(ps), c.union(ps));
            law_more_bound_reads_less(*body, b.union(ps), c.union(ps));
        },
        ExprKind::Let { bindings, body } => {
            lemma_bindings_read_less(bindings@, bindings@.len(), b, c);
            law_more_bound_reads_less(
                *body,
                bound_by(bindings@, bindings@.len(), b),
                bound_by(bindings@, bindings@.len(), c),
            );
        },
        ExprKind::LcFor { bindings, body } => {
            lemma_bindings_read_less(bindings@, bindings@.len(), b, c);
            law_more_bound_reads_less(
                *body,
                bound_by(bindings@, bindings@.len(), b),
                bound_by(bindings@, bindings@.len(), c),
            );
        },
        ExprKind::Assert { args, body, .. } => {
            lemma_args_read_less(args@, args@.len(), b, c);
            match body {
                Some(x) => law_more_bound_reads_less(*x, b, c),
                None => {},
            }
        },
        ExprKind::Echo { args, body } => {
            lemma_args_read_less(args@, args@.len(), b, c);
            match body {
                Some(x) => law_more_bound_reads_less(*x, b, c),
                None => {},
            }
        },
        ExprKind::LcForC { init, cond, update, body } => {
            lemma_bindings_read_less(init@, init@.len(), b, c);
            let b1 = bound_by(init@, init@.len(), b);
            let c1 = bound_by(init@, init@.len(), c);
            lemma_bindings_read_less(update@, update@.len(), b1, c1);
            let b2 = bound_by(update@, update@.len(), b1);
            let c2 = bound_by(update@, update@.len(), c1);
            law_more_bound_reads_less(*cond, b2, c2);
            law_more_bound_reads_less(*body, b2, c2);
        },
        ExprKind::LcEach(inner) => law_more_bound_reads_less(*inner, b, c),
        ExprKind::LcIf { cond, yes, no } => {
            law_more_bound_reads_less(*cond, b, c);
            law_more_bound_reads_less(*yes, b, c);
            match no {
                Some(x) => law_more_bound_reads_less(*x, b, c),
                None => {},
            }
        },
        _ => {},
    }
}

proof fn lemma_args_read_less(args: Seq<Arg>, n: nat, b: Set<Seq<char>>, c: Set<Seq<char>>)
    requires
        b.subset_of(c),
    ensures
        free_args(args, n, c).subset_of(free_args(args, n, b)),
    decreases args, n,
{
    if 0 < n <= args.len() {
        lemma_args_read_less(args, (n - 1) as nat, b, c);
        law_more_bound_reads_less(args[n - 1].value, b, c);
    }
}

proof fn lemma_items_read_less(es: Seq<Expr>, n: nat, b: Set<Seq<char>>, c: Set<Seq<char>>)
    requires
        b.subset_of(c),
    ensures
        free_items(es, n, c).subset_of(free_items(es, n, b)),
    decreases es, n,
{
    if 0 < n <= es.len() {
        lemma_items_read_less(es, (n - 1) as nat, b, c);
        law_more_bound_reads_less(es[n - 1], b, c);
    }
}

proof fn lemma_defaults_read_less(
    params: Seq<Parameter>,
    n: nat,
    b: Set<Seq<char>>,
    c: Set<Seq<char>>,
)
    requires
        b.subset_of(c),
    ensures
        free_defaults(params, n, c).subset_of(free_defaults(params, n, b)),
    decreases params, n,
{
    if 0 < n <= params.len() {
        lemma_defaults_read_less(params, (n - 1) as nat, b, c);
        match params[n - 1].default {
            Some(d) => law_more_bound_reads_less(d, b, c),
            None => {},
        }
    }
}

proof fn lemma_bindings_read_less(bindings: Seq<Arg>, n: nat, b: Set<Seq<char>>, c: Set<Seq<char>>)
    requires
        b.subset_of(c),
    ensures
        free_bindings(bindings, n, c).subset_of(free_bindings(bindings, n, b)),
        bound_by(bindings, n, b).subset_of(bound_by(bindings, n, c)),
    decreases bindings, n,
{
    if n > 0 {
        if n <= bindings.len() {
            lemma_bindings_read_less(bindings, (n - 1) as nat, b, c);
            law_more_bound_reads_less(
                bindings[n - 1].value,
                bound_by(bindings, (n - 1) as nat, b),
                bound_by(bindings, (n - 1) as nat, c),
            );
        } else {
            lemma_bindings_read_less(bindings, (n - 1) as nat, b, c);
        }
    }
}

proof fn lemma_bound_stays(bindings: Seq<Arg>, k: nat, b: Set<Seq<char>>, n: Seq<char>)
    requires
        b.contains(n),
    ensures
        bound_by(bindings, k, b).contains(n),
    decreases k,
{
    if k > 0 {
        lemma_bound_stays(bindings, (k - 1) as nat, b, n);
    }
}

proof fn lemma_reads(e: Expr, b: Set<Seq<char>>, n: Seq<char>)
    ensures
        free(e, b).contains(n) ==> !special(n) && !b.contains(n),
        called(e).contains(n) ==> !special(n),
    decreases e, 0nat,
{
    match e.kind {
        ExprKind::Unary { operand, .. } => lemma_reads(*operand, b, n),
        ExprKind::Binary { lhs, rhs, .. } => {
            lemma_reads(*lhs, b, n);
            lemma_reads(*rhs, b, n);
        },
        ExprKind::Ternary { cond, yes, no } => {
            lemma_reads(*cond, b, n);
            lemma_reads(*yes, b, n);
            lemma_reads(*no, b, n);
        },
        ExprKind::Index { base, index } => {
            lemma_reads(*base, b, n);
            lemma_reads(*index, b, n);
        },
        ExprKind::Member { base, .. } => lemma_reads(*base, b, n),
        ExprKind::Call { callee, args } => {
            lemma_reads(*callee, b, n);
            lemma_args_read(args@, args@.len(), b, n);
        },
        ExprKind::Vector(items) => lemma_items_read(items@, items@.len(), b, n),
        ExprKind::Range { start, step, end } => {
            lemma_reads(*start, b, n);
            lemma_reads(*end, b, n);
            match step {
                Some(p) => lemma_reads(*p, b, n),
                None => {},
            }
        },
        ExprKind::FunctionLiteral { params, body, .. } => {
            let c = b.union(name_set(param_names(params@)));
            lemma_defaults_read(params@, params@.len(), c, n);
            lemma_reads(*body, c, n);
        },
        ExprKind::Let { bindings, body } => {
            lemma_bindings_read(bindings@, bindings@.len(), b, n);
            lemma_reads(*body, bound_by(bindings@, bindings@.len(), b), n);
        },
        ExprKind::LcFor { bindings, body } => {
            lemma_bindings_read(bindings@, bindings@.len(), b, n);
            lemma_reads(*body, bound_by(bindings@, bindings@.len(), b), n);
        },
        ExprKind::Assert { args, body, .. } => {
            lemma_args_read(args@, args@.len(), b, n);
            match body {
                Some(x) => lemma_reads(*x, b, n),
                None => {},
            }
        },
        ExprKind::Echo { args, body } => {
            lemma_args_read(args@, args@.len(), b, n);
            match body {
                Some(x) => lemma_reads(*x, b, n),
                None => {},
            }
        },
        ExprKind::LcForC { init, cond, update, body } => {
            let c = bound_by(init@, init@.len(), b);
            let d = bound_by(update@, update@.len(), c);
            lemma_bindings_read(init@, init@.len(), b, n);
            lemma_bindings_read(update@, update@.len(), c, n);
            lemma_reads(*cond, d, n);
            lemma_reads(*body, d, n);
        },
        ExprKind::LcEach(inner) => lemma_reads(*inner, b, n),
        ExprKind::LcIf { cond, yes, no } => {
            lemma_reads(*cond, b, n);
            lemma_reads(*yes, b, n);
            match no {
                Some(x) => lemma_reads(*x, b, n),
                None => {},
            }
        },
        _ => {},
    }
}

proof fn lemma_args_read(args: Seq<Arg>, k: nat, b: Set<Seq<char>>, n: Seq<char>)
    ensures
        free_args(args, k, b).contains(n) ==> !special(n) && !b.contains(n),
        called_args(args, k).contains(n) ==> !special(n),
    decreases args, k,
{
    if 0 < k <= args.len() {
        lemma_args_read(args, (k - 1) as nat, b, n);
        lemma_reads(args[k - 1].value, b, n);
    }
}

proof fn lemma_items_read(es: Seq<Expr>, k: nat, b: Set<Seq<char>>, n: Seq<char>)
    ensures
        free_items(es, k, b).contains(n) ==> !special(n) && !b.contains(n),
        called_items(es, k).contains(n) ==> !special(n),
    decreases es, k,
{
    if 0 < k <= es.len() {
        lemma_items_read(es, (k - 1) as nat, b, n);
        lemma_reads(es[k - 1], b, n);
    }
}

proof fn lemma_defaults_read(params: Seq<Parameter>, k: nat, b: Set<Seq<char>>, n: Seq<char>)
    ensures
        free_defaults(params, k, b).contains(n) ==> !special(n) && !b.contains(n),
        called_defaults(params, k).contains(n) ==> !special(n),
    decreases params, k,
{
    if 0 < k <= params.len() {
        lemma_defaults_read(params, (k - 1) as nat, b, n);
        match params[k - 1].default {
            Some(d) => lemma_reads(d, b, n),
            None => {},
        }
    }
}

proof fn lemma_bindings_read(bindings: Seq<Arg>, k: nat, b: Set<Seq<char>>, n: Seq<char>)
    ensures
        free_bindings(bindings, k, b).contains(n) ==> !special(n) && !b.contains(n),
        called_args(bindings, k).contains(n) ==> !special(n),
        b.contains(n) ==> bound_by(bindings, k, b).contains(n),
    decreases bindings, k,
{
    if b.contains(n) {
        lemma_bound_stays(bindings, k, b, n);
        if k > 0 {
            lemma_bound_stays(bindings, (k - 1) as nat, b, n);
        }
    }
    if 0 < k <= bindings.len() {
        lemma_bindings_read(bindings, (k - 1) as nat, b, n);
        lemma_reads(bindings[k - 1].value, bound_by(bindings, (k - 1) as nat, b), n);
    }
}

/// Walking an expression only adds to what is known of a function: its name and its parameters stay,
/// and no name that was noted is lost. What it adds is never a `$`-name, and no name that is bound
/// where it is read; and a called name is noted as a builtin or as a function, not as both.
pub proof fn law_walking_only_adds(
    r: Reach,
    e: Expr,
    b: Set<Seq<char>>,
    bs: Set<Seq<char>>,
    n: Seq<char>,
)
    ensures
        ({
            let t = more(r, free(e, b), called(e), bs);
            &&& t.name == r.name
            &&& t.params == r.params
            &&& r.consts.contains(n) ==> t.consts.contains(n)
            &&& r.deps.contains(n) ==> t.deps.contains(n)
            &&& r.builtins.contains(n) ==> t.builtins.contains(n)
            &&& t.consts.contains(n) && !r.consts.contains(n) ==> !special(n) && !b.contains(n)
            &&& t.deps.contains(n) && !r.deps.contains(n) ==> !special(n) && !bs.contains(n)
            &&& t.builtins.contains(n) && !r.builtins.contains(n) ==> !special(n) && bs.contains(n)
        }),
{
    lemma_reads(e, b, n);
}

/// What a function leans on is closed: with each other function that it calls it leans on what that one calls and on the
/// builtins that that one uses, it keeps its own, and it never counts itself.
pub proof fn law_closed_reach(
    a: Reach,
    t: Seq<(Seq<char>, Seq<Stmt>)>,
    bs: Set<Seq<char>>,
    from: Seq<char>,
    to: Seq<char>,
)
    ensures
        ({
            let c = closed_reach(a, t, bs);
            &&& !c.deps.contains(a.name)
            &&& a.deps.contains(from) && from != a.name ==> c.deps.contains(from)
            &&& c.deps.contains(from) && calls(t, bs, from, to) && to != a.name ==> c.deps.contains(to)
            &&& a.builtins.contains(to) ==> c.builtins.contains(to)
            &&& source_reach(t, bs, from) matches Some(Ok(q)) ==> (c.deps.contains(from) && q.builtins.contains(to)
                ==> c.builtins.contains(to))
            &&& c.name == a.name && c.params == a.params && c.consts == a.consts
        }),
{
    let all = reached(t, bs, a.deps);
    if a.deps.contains(from) {
        assert(reached_in(t, bs, a.deps, from, 0));
    }
    if all.contains(from) && calls(t, bs, from, to) {
        law_reached_is_closed(t, bs, a.deps, from, to);
    }
}

}

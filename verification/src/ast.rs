//! The syntax tree that the evaluator reads.

use std::rc::Rc;

use vstd::prelude::*;

verus! {

/// A shared identifier or text.
pub type Name = Rc<String>;

/// A byte range of the source text.
#[derive(Debug, Clone, Copy, PartialEq, Eq, Structural)]
pub struct Span {
    pub start: usize,
    pub end: usize,
}

/// Binary operators.
#[derive(Debug, Clone, Copy, PartialEq, Eq, Structural)]
pub enum BinOp {
    Add,
    Sub,
    Mul,
    Div,
    Mod,
    Pow,
    Eq,
    Ne,
    Lt,
    Le,
    Gt,
    Ge,
    And,
    Or,
    BitOr,
    BitAnd,
    Shl,
    Shr,
}

/// Prefix operators.
#[derive(Debug, Clone, Copy, PartialEq, Eq, Structural)]
pub enum UnOp {
    Neg,
    Pos,
    Not,
    BitNot,
}

/// An expression with its place in the source.
#[derive(Debug)]
pub struct Expr {
    pub kind: ExprKind,
    pub span: Span,
}

/// One argument of a call, or one binding of a `let` or a `for`.
#[derive(Debug)]
pub struct Arg {
    pub name: Option<Name>,
    pub value: Expr,
}

/// One declared parameter.
#[derive(Debug)]
pub struct Parameter {
    pub name: Name,
    pub default: Option<Expr>,
}

/// The forms of expression.
///
/// `repr` of a function literal is its printed form; `shown` of an assertion is the printed form
/// of its condition.
#[derive(Debug)]
#[allow(inconsistent_fields)]
pub enum ExprKind {
    Num(u64),
    Bool(bool),
    Undef,
    Str(Name),
    Ident(Name),
    Unary { op: UnOp, operand: Box<Expr> },
    Binary { op: BinOp, lhs: Box<Expr>, rhs: Box<Expr> },
    Ternary { cond: Box<Expr>, yes: Box<Expr>, no: Box<Expr> },
    Vector(Vec<Expr>),
    Call { callee: Box<Expr>, args: Vec<Arg> },
    Index { base: Box<Expr>, index: Box<Expr> },
    Member { base: Box<Expr>, field: Name },
    Range { start: Box<Expr>, step: Option<Box<Expr>>, end: Box<Expr> },
    FunctionLiteral { params: Vec<Parameter>, body: Box<Expr>, repr: Name },
    Let { bindings: Vec<Arg>, body: Box<Expr> },
    Echo { args: Vec<Arg>, body: Option<Box<Expr>> },
    Assert { args: Vec<Arg>, body: Option<Box<Expr>>, shown: Name },
    LcFor { bindings: Vec<Arg>, body: Box<Expr> },
    LcForC { init: Vec<Arg>, cond: Box<Expr>, update: Vec<Arg>, body: Box<Expr> },
    LcEach(Box<Expr>),
    LcIf { cond: Box<Expr>, yes: Box<Expr>, no: Option<Box<Expr>> },
}

/// A statement with its place in the source.
#[derive(Debug)]
pub struct Stmt {
    pub kind: StmtKind,
    pub span: Span,
}

/// A module call with its child statements.
#[derive(Debug)]
pub struct ModuleInstantiation {
    pub name: Name,
    pub args: Vec<Arg>,
    pub children: Vec<Stmt>,
}

/// The forms of statement. `repr` of a function definition is its printed form as a value, `fp` the
/// fingerprint of its parameters and body.
#[derive(Debug)]
#[allow(inconsistent_fields)]
pub enum StmtKind {
    Empty,
    Block(Vec<Stmt>),
    Assignment { name: Name, value: Expr },
    FunctionDef { name: Name, params: Vec<Parameter>, body: Expr, repr: Name, fp: u64 },
    ModuleDef { name: Name, params: Vec<Parameter>, body: Box<Stmt> },
    If { cond: Expr, yes: Vec<Stmt>, no: Vec<Stmt> },
    Module(ModuleInstantiation),
    Use(Name),
    Include(Name),
}

/// A parsed program.
#[derive(Debug)]
pub struct Program {
    pub stmts: Vec<Stmt>,
}

/// Whether two names are the same text.
pub fn same_name(a: &Name, b: &Name) -> (r: bool)
    ensures
        r == (a@ == b@),
{
    **a == **b
}

/// Whether a name is a dynamically scoped one: it starts with `$`.
pub open spec fn special(name: Seq<char>) -> bool {
    name.len() > 0 && name[0] == '$'
}

/// Whether a name starts with `$`.
pub fn is_special(name: &str) -> (r: bool)
    ensures
        r == special(name@),
{
    if name.is_empty() {
        false
    } else {
        name.get_char(0) == '$'
    }
}

/// Equality of optional names.
pub open spec fn opt_text(n: Option<Name>) -> Option<Seq<char>> {
    match n {
        Some(s) => Some(s@),
        None => None,
    }
}

/// Whether two optional names are equal.
pub fn same_opt_name(a: &Option<Name>, b: &Option<Name>) -> (r: bool)
    ensures
        r == (opt_text(*a) == opt_text(*b)),
{
    match (a, b) {
        (Some(x), Some(y)) => same_name(x, y),
        (None, None) => true,
        _ => false,
    }
}

/// The expressions directly inside an expression, in the order in which they are written.
pub open spec fn parts(e: Expr) -> Seq<Expr> {
    match e.kind {
        ExprKind::Unary { operand, .. } => seq![*operand],
        ExprKind::Binary { lhs, rhs, .. } => seq![*lhs, *rhs],
        ExprKind::Ternary { cond, yes, no } => seq![*cond, *yes, *no],
        ExprKind::Vector(es) => es@,
        ExprKind::Call { callee, args } => seq![*callee] + arg_exprs(args@),
        ExprKind::Index { base, index } => seq![*base, *index],
        ExprKind::Member { base, .. } => seq![*base],
        ExprKind::Range { start, step, end } => match step {
            Some(p) => seq![*start, *p, *end],
            None => seq![*start, *end],
        },
        ExprKind::FunctionLiteral { params, body, .. } => defaults_of(params@, params@.len()).push(
            *body,
        ),
        ExprKind::Let { bindings, body } => arg_exprs(bindings@).push(*body),
        ExprKind::Echo { args, body } => match body {
            Some(b) => arg_exprs(args@).push(*b),
            None => arg_exprs(args@),
        },
        ExprKind::Assert { args, body, .. } => match body {
            Some(b) => arg_exprs(args@).push(*b),
            None => arg_exprs(args@),
        },
        ExprKind::LcFor { bindings, body } => arg_exprs(bindings@).push(*body),
        ExprKind::LcForC { init, cond, update, body } => (arg_exprs(init@).push(*cond) + arg_exprs(
            update@,
        )).push(*body),
        ExprKind::LcEach(inner) => seq![*inner],
        ExprKind::LcIf { cond, yes, no } => match no {
            Some(b) => seq![*cond, *yes, *b],
            None => seq![*cond, *yes],
        },
        _ => Seq::empty(),
    }
}

/// The values of some arguments, as expressions.
pub open spec fn arg_exprs(args: Seq<Arg>) -> Seq<Expr> {
    Seq::new(args.len(), |i: int| args[i].value)
}

/// The defaults among the first `n` parameters.
pub open spec fn defaults_of(params: Seq<Parameter>, n: nat) -> Seq<Expr>
    decreases n,
{
    if n == 0 {
        Seq::empty()
    } else {
        match params[n - 1].default {
            Some(d) => defaults_of(params, (n - 1) as nat).push(d),
            None => defaults_of(params, (n - 1) as nat),
        }
    }
}

/// Some expressions by reference, mathematically.
pub open spec fn exprs(es: Seq<&Expr>) -> Seq<Expr> {
    Seq::new(es.len(), |i: int| *es[i])
}

fn push_values<'a>(out: &mut Vec<&'a Expr>, args: &'a Vec<Arg>)
    ensures
        exprs(final(out)@) == exprs(old(out)@) + arg_exprs(args@),
{
    let ghost before = exprs(out@);
    let ghost all = before + arg_exprs(args@);
    let mut i: usize = 0;
    assert(all.take(before.len() as int) =~= before);
    while i < args.len()
        invariant
            i <= args@.len(),
            all == before + arg_exprs(args@),
            exprs(out@) == all.take(before.len() + i),
        decreases args@.len() - i,
    {
        let ghost was = exprs(out@);
        out.push(&args[i].value);
        assert(exprs(out@) =~= was.push(args@[i as int].value));
        assert(all.take(before.len() + i + 1) =~= was.push(args@[i as int].value));
        i += 1;
    }
    assert(all.take(all.len() as int) =~= all);
}

fn push_one<'a>(out: &mut Vec<&'a Expr>, e: &'a Expr)
    ensures
        exprs(final(out)@) == exprs(old(out)@).push(*e),
{
    out.push(e);
    assert(exprs(out@) =~= exprs(old(out)@).push(*e));
}

/// The expressions directly inside an expression, in the order in which they are written.
pub fn expr_children(e: &Expr) -> (r: Vec<&Expr>)
    ensures
        exprs(r@) == parts(*e),
{
    let mut out: Vec<&Expr> = Vec::new();
    assert(exprs(out@) =~= Seq::<Expr>::empty());
    match &e.kind {
        ExprKind::Unary { operand, .. } => {
            push_one(&mut out, operand);
        },
        ExprKind::Binary { lhs, rhs, .. } => {
            push_one(&mut out, lhs);
            push_one(&mut out, rhs);
        },
        ExprKind::Ternary { cond, yes, no } => {
            push_one(&mut out, cond);
            push_one(&mut out, yes);
            push_one(&mut out, no);
        },
        ExprKind::Vector(es) => {
            let mut i: usize = 0;
            while i < es.len()
                invariant
                    i <= es@.len(),
                    exprs(out@) =~= es@.take(i as int),
                decreases es@.len() - i,
            {
                push_one(&mut out, &es[i]);
                i += 1;
            }
            assert(es@.take(es@.len() as int) =~= es@);
        },
        ExprKind::Call { callee, args } => {
            push_one(&mut out, callee);
            push_values(&mut out, args);
        },
        ExprKind::Index { base, index } => {
            push_one(&mut out, base);
            push_one(&mut out, index);
        },
        ExprKind::Member { base, .. } => {
            push_one(&mut out, base);
        },
        ExprKind::Range { start, step, end } => {
            push_one(&mut out, start);
            match step {
                Some(p) => {
                    push_one(&mut out, p);
                },
                None => {},
            }
            push_one(&mut out, end);
        },
        ExprKind::FunctionLiteral { params, body, .. } => {
            let mut i: usize = 0;
            while i < params.len()
                invariant
                    i <= params@.len(),
                    exprs(out@) == defaults_of(params@, i as nat),
                decreases params@.len() - i,
            {
                match &params[i].default {
                    Some(d) => {
                        push_one(&mut out, d);
                    },
                    None => {},
                }
                i += 1;
            }
            push_one(&mut out, body);
        },
        ExprKind::Let { bindings, body } => {
            push_values(&mut out, bindings);
            push_one(&mut out, body);
        },
        ExprKind::Echo { args, body } => {
            push_values(&mut out, args);
            match body {
                Some(b) => {
                    push_one(&mut out, b);
                },
                None => {},
            }
        },
        ExprKind::Assert { args, body, .. } => {
            push_values(&mut out, args);
            match body {
                Some(b) => {
                    push_one(&mut out, b);
                },
                None => {},
            }
        },
        ExprKind::LcFor { bindings, body } => {
            push_values(&mut out, bindings);
            push_one(&mut out, body);
        },
        ExprKind::LcForC { init, cond, update, body } => {
            push_values(&mut out, init);
            push_one(&mut out, cond);
            push_values(&mut out, update);
            push_one(&mut out, body);
        },
        ExprKind::LcEach(inner) => {
            push_one(&mut out, inner);
        },
        ExprKind::LcIf { cond, yes, no } => {
            push_one(&mut out, cond);
            push_one(&mut out, yes);
            match no {
                Some(b) => {
                    push_one(&mut out, b);
                },
                None => {},
            }
        },
        _ => {},
    }
    assert(exprs(out@) =~= parts(*e));
    out
}

/// The `i`-th of the expressions directly inside an expression.
pub fn expr_child(e: &Expr, i: usize) -> (r: Option<&Expr>)
    ensures
        match r {
            Some(c) => i < parts(*e).len() && *c == parts(*e)[i as int],
            None => i >= parts(*e).len(),
        },
{
    let all: Vec<&Expr> = expr_children(e);
    assert(parts(*e).len() == all@.len());
    if i < all.len() {
        assert(exprs(all@)[i as int] == *all@[i as int]);
        Some(all[i])
    } else {
        None
    }
}

}

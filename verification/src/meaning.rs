//! What native code means: the forms of code, how each is written, what it comes to when it runs; what an
//! expression comes to; and that the text of an expression is code that comes to the same.

use vstd::prelude::*;

use crate::ast::{Arg, BinOp, Expr, ExprKind, Parameter, UnOp};
use crate::chars::{decimal, hexadecimal};
use crate::emit::{
    arg_list, bake_from, bumped, comprehends, debug_text, element, elements, emitted, fors,
    fresh_text, gap_from, given, has_hole, ident_of, joined, lets, listed, place_from, repeated,
    signature_from, slot_of, slotted, Bake, Known,
};
use crate::discipline::law_run_keeps_bindings;
use crate::generate::{binds_text, function_text, param_env};
use crate::iterate::range_of;
use crate::machine::{known, read, Job, State};
use crate::message::Fault;
use crate::num::{FloatOp, ONE};
use crate::ops::{combined, indexed, member_at, transformed};
use crate::reach::{alone, ends_at, yields, Around};
use crate::rules::{
    law_binary, law_index, law_literals, law_member, law_names, law_short_circuit, law_ternary, law_unary,
};
use crate::scope::{law_growing_keeps_meanings, meaning, Scope};
use crate::value::{truthy, vector_of, Val};

verus! {

/// A piece of native code that has a value.
pub enum Code {
    Number(u64),
    Numbers(Seq<u64>),
    One,
    Truth(bool),
    Nothing,
    Text(Seq<char>),
    /// A copy of what a variable holds.
    Copy(Seq<char>),
    Unary(UnOp, Box<Code>),
    Binary(BinOp, Box<Code>, Box<Code>),
    Both(Box<Code>, Box<Code>),
    Either(Box<Code>, Box<Code>),
    Branch { cond: Box<Code>, yes: Box<Code>, no: Box<Code> },
    Index { base: Box<Code>, at: Box<Code> },
    Member { base: Box<Code>, field: Seq<char> },
    /// Variables one after the other, and then a value.
    Block { vars: Seq<(Seq<char>, Code)>, body: Box<Code> },
    /// A condition without which the function fails, and then a value.
    Guard { cond: Box<Code>, body: Box<Code> },
    Range { start: Box<Code>, step: Box<Code>, end: Box<Code> },
    Vector(Seq<Code>),
    /// A variable to which pieces of code push values, and then the vector of them.
    Gather { acc: Seq<char>, parts: Seq<Push> },
    Builtin { name: Seq<char>, args: Seq<Code> },
    /// A call of native code, which fails where that does.
    Call { name: Seq<char>, args: Seq<Code> },
}

/// A piece of native code that pushes values to a variable.
pub enum Push {
    Value(Code),
    When { cond: Code, yes: Box<Push> },
    Fork { cond: Code, yes: Box<Push>, no: Box<Push> },
    /// Everything that a value yields.
    Each { var: Seq<char>, over: Code },
    /// Loops one in the other, each with a variable.
    Loops { vars: Seq<(Seq<char>, Code)>, body: Box<Push> },
    Within { vars: Seq<(Seq<char>, Code)>, body: Box<Push> },
}

/// How a prefix operator is named.
pub open spec fn prefix_name(op: UnOp) -> Seq<char> {
    match op {
        UnOp::Neg => "Neg"@,
        UnOp::Pos => "Pos"@,
        UnOp::Not => "Not"@,
        UnOp::BitNot => "BitNot"@,
    }
}

/// How an operator is named.
pub open spec fn operator_name(op: BinOp) -> Seq<char> {
    match op {
        BinOp::Add => "Add"@,
        BinOp::Sub => "Sub"@,
        BinOp::Mul => "Mul"@,
        BinOp::Div => "Div"@,
        BinOp::Mod => "Mod"@,
        BinOp::Pow => "Pow"@,
        BinOp::Eq => "Eq"@,
        BinOp::Ne => "Ne"@,
        BinOp::Lt => "Lt"@,
        BinOp::Le => "Le"@,
        BinOp::Gt => "Gt"@,
        BinOp::Ge => "Ge"@,
        BinOp::And => "And"@,
        BinOp::Or => "Or"@,
        BinOp::BitOr => "BitOr"@,
        BinOp::BitAnd => "BitAnd"@,
        BinOp::Shl => "Shl"@,
        BinOp::Shr => "Shr"@,
    }
}

/// A number by its bits.
pub open spec fn bits(n: u64) -> Seq<char> {
    "f64::from_bits(0x"@ + hexadecimal(n as nat) + "_u64)"@
}

/// The first `n` of some numbers by their bits, with commas between them.
pub open spec fn bits_listed(xs: Seq<u64>, n: nat) -> Seq<char>
    decreases n,
{
    if n == 0 {
        Seq::empty()
    } else if n == 1 {
        bits(xs[0])
    } else {
        bits_listed(xs, (n - 1) as nat) + ", "@ + bits(xs[n - 1])
    }
}

/// How code is written.
pub open spec fn written(c: Code) -> Seq<char>
    decreases c, 0nat,
{
    match c {
        Code::Number(n) => "rt::Value::Num("@ + bits(n) + ")"@,
        Code::Numbers(xs) => "rt::Value::num_list(vec!["@ + bits_listed(xs, xs.len()) + "])"@,
        Code::One => "rt::Value::Num(f64::from_bits(0x3ff0000000000000_u64))"@,
        Code::Truth(b) => if b {
            "rt::Value::Bool(true)"@
        } else {
            "rt::Value::Bool(false)"@
        },
        Code::Nothing => "rt::Value::Undef"@,
        Code::Text(s) => "rt::Value::string("@ + debug_text(s) + ")"@,
        Code::Copy(id) => id + ".clone()"@,
        Code::Unary(op, a) => "rt::apply_unary(rt::UnOp::"@ + prefix_name(op) + ", "@ + written(*a) + ")"@,
        Code::Binary(op, a, b) => "rt::apply_binary(rt::BinOp::"@ + operator_name(op) + ", "@ + written(*a) + ", "@
            + written(*b) + ")"@,
        Code::Both(a, b) => "rt::Value::Bool("@ + written(*a) + ".is_truthy() && "@ + written(*b)
            + ".is_truthy())"@,
        Code::Either(a, b) => "rt::Value::Bool("@ + written(*a) + ".is_truthy() || "@ + written(*b)
            + ".is_truthy())"@,
        Code::Branch { cond, yes, no } => "if "@ + written(*cond) + ".is_truthy() { "@ + written(*yes)
            + " } else { "@ + written(*no) + " }"@,
        Code::Index { base, at } => "rt::index("@ + written(*base) + ", &"@ + written(*at) + ")"@,
        Code::Member { base, field } => "rt::member("@ + written(*base) + ", "@ + debug_text(field) + ")"@,
        Code::Block { vars, body } => "{ "@ + variables_written(vars, vars.len()) + written(*body) + " }"@,
        Code::Guard { cond, body } => "{ if !("@ + written(*cond)
            + ").is_truthy() { return Err(rt::bosl_assert(\"generated\")); } "@ + written(*body) + " }"@,
        Code::Range { start, step, end } => "rt::build_range(&"@ + written(*start) + ", &"@ + written(*step)
            + ", &"@ + written(*end) + ")"@,
        Code::Vector(cs) => "rt::build_vector(vec!["@ + list_written(cs, cs.len()) + "])"@,
        Code::Gather { acc, parts } => "{ let mut "@ + acc + ": Vec<rt::Value> = Vec::new(); "@ + parts_written(
            parts,
            parts.len(),
            acc,
        ) + "rt::build_vector("@ + acc + ") }"@,
        Code::Builtin { name, args } => "rt::builtin(\""@ + name + "\", &["@ + list_written(args, args.len())
            + "])"@,
        Code::Call { name, args } => name + "(&["@ + list_written(args, args.len()) + "])?"@,
    }
}

/// How the first `n` pieces of code of a list are written.
pub open spec fn list_written(cs: Seq<Code>, n: nat) -> Seq<char>
    decreases cs, n,
{
    if n == 0 || n > cs.len() {
        Seq::empty()
    } else if n == 1 {
        written(cs[0])
    } else {
        list_written(cs, (n - 1) as nat) + ", "@ + written(cs[n - 1])
    }
}

/// How the first `n` variables of a block are written.
pub open spec fn variables_written(vs: Seq<(Seq<char>, Code)>, n: nat) -> Seq<char>
    decreases vs, n,
{
    if n == 0 || n > vs.len() {
        Seq::empty()
    } else {
        variables_written(vs, (n - 1) as nat) + "let "@ + vs[n - 1].0 + " = "@ + written(vs[n - 1].1) + "; "@
    }
}

/// How the openings of the first `n` loops are written.
pub open spec fn loops_written(vs: Seq<(Seq<char>, Code)>, n: nat) -> Seq<char>
    decreases vs, n,
{
    if n == 0 || n > vs.len() {
        Seq::empty()
    } else {
        loops_written(vs, (n - 1) as nat) + "for "@ + vs[n - 1].0 + " in rt::iter_values_native(&"@ + written(
            vs[n - 1].1,
        ) + ") { "@
    }
}

/// How the ends of `n` loops are written.
pub open spec fn ends_written(n: nat) -> Seq<char>
    decreases n,
{
    if n == 0 {
        Seq::empty()
    } else {
        ends_written((n - 1) as nat) + "} "@
    }
}

/// How code that pushes to a variable is written.
pub open spec fn push_written(p: Push, acc: Seq<char>) -> Seq<char>
    decreases p, 0nat,
{
    match p {
        Push::Value(c) => acc + ".push("@ + written(c) + ");\n        "@,
        Push::When { cond, yes } => "if ("@ + written(cond) + ").is_truthy() { "@ + push_written(*yes, acc)
            + " } "@,
        Push::Fork { cond, yes, no } => "if ("@ + written(cond) + ").is_truthy() { "@ + push_written(*yes, acc)
            + " } else { "@ + push_written(*no, acc) + " } "@,
        Push::Each { var, over } => "for "@ + var + " in rt::iter_values_native(&"@ + written(over) + ") { "@
            + acc + ".push("@ + var + "); } "@,
        Push::Loops { vars, body } => loops_written(vars, vars.len()) + push_written(*body, acc) + ends_written(
            vars.len(),
        ),
        Push::Within { vars, body } => "{ "@ + variables_written(vars, vars.len()) + push_written(*body, acc)
            + " } "@,
    }
}

/// How the first `n` pieces of code that push are written.
pub open spec fn parts_written(ps: Seq<Push>, n: nat, acc: Seq<char>) -> Seq<char>
    decreases ps, n,
{
    if n == 0 || n > ps.len() {
        Seq::empty()
    } else {
        parts_written(ps, (n - 1) as nat, acc) + push_written(ps[n - 1], acc)
    }
}

/// What code runs in: the float unit; what iterating a value yields; what a builtin makes of values; and what
/// native code makes of values, where it does not fail.
///
/// `apply` is what the evaluator makes of a call of a function by its name, with values that are given by
/// position or by name.
pub struct World {
    pub f: spec_fn(FloatOp, u64, u64) -> u64,
    pub items: spec_fn(Val) -> Seq<Val>,
    pub builtin: spec_fn(Seq<char>, Seq<Val>) -> Val,
    pub native: spec_fn(Seq<char>, Seq<Val>) -> Option<Val>,
    pub apply: spec_fn(Seq<char>, Seq<(Option<Seq<char>>, Val)>) -> Option<Val>,
}

/// What the variables of code hold.
pub type Held = Map<Seq<char>, Val>;

/// What code comes to with given variables; none where the function fails.
pub open spec fn runs(c: Code, st: Held, w: World) -> Option<Val>
    decreases c, 0nat, 0nat,
{
    match c {
        Code::Number(n) => Some(Val::Num(n)),
        Code::Numbers(xs) => Some(Val::NumList(xs)),
        Code::One => Some(Val::Num(ONE)),
        Code::Truth(b) => Some(Val::Bool(b)),
        Code::Nothing => Some(Val::Undef),
        Code::Text(s) => Some(Val::Str(s)),
        Code::Copy(id) => if st.contains_key(id) {
            Some(st[id])
        } else {
            None
        },
        Code::Unary(op, a) => match runs(*a, st, w) {
            Some(x) => Some(transformed(op, x, w.f).0),
            None => None,
        },
        Code::Binary(op, a, b) => match (runs(*a, st, w), runs(*b, st, w)) {
            (Some(x), Some(y)) => Some(combined(op, x, y, w.f).0),
            _ => None,
        },
        Code::Both(a, b) => match runs(*a, st, w) {
            Some(x) => if truthy(x) {
                match runs(*b, st, w) {
                    Some(y) => Some(Val::Bool(truthy(y))),
                    None => None,
                }
            } else {
                Some(Val::Bool(false))
            },
            None => None,
        },
        Code::Either(a, b) => match runs(*a, st, w) {
            Some(x) => if truthy(x) {
                Some(Val::Bool(true))
            } else {
                match runs(*b, st, w) {
                    Some(y) => Some(Val::Bool(truthy(y))),
                    None => None,
                }
            },
            None => None,
        },
        Code::Branch { cond, yes, no } => match runs(*cond, st, w) {
            Some(x) => if truthy(x) {
                runs(*yes, st, w)
            } else {
                runs(*no, st, w)
            },
            None => None,
        },
        Code::Index { base, at } => match (runs(*base, st, w), runs(*at, st, w)) {
            (Some(x), Some(y)) => Some(indexed(x, y)),
            _ => None,
        },
        Code::Member { base, field } => match runs(*base, st, w) {
            Some(x) => Some(member_at(x, field)),
            None => None,
        },
        Code::Block { vars, body } => match held_after(vars, vars.len(), st, w) {
            Some(inner) => runs(*body, inner, w),
            None => None,
        },
        Code::Guard { cond, body } => match runs(*cond, st, w) {
            Some(x) => if truthy(x) {
                runs(*body, st, w)
            } else {
                None
            },
            None => None,
        },
        Code::Range { start, step, end } => match (runs(*start, st, w), runs(*step, st, w), runs(*end, st, w)) {
            (Some(x), Some(y), Some(z)) => Some(range_of(x, y, z)),
            _ => None,
        },
        Code::Vector(cs) => match list_runs(cs, cs.len(), st, w) {
            Some(xs) => Some(vector_of(xs)),
            None => None,
        },
        Code::Gather { parts, .. } => match parts_run(parts, parts.len(), st, w) {
            Some(xs) => Some(vector_of(xs)),
            None => None,
        },
        Code::Builtin { name, args } => match list_runs(args, args.len(), st, w) {
            Some(xs) => Some((w.builtin)(name, xs)),
            None => None,
        },
        Code::Call { name, args } => match list_runs(args, args.len(), st, w) {
            Some(xs) => (w.native)(name, xs),
            None => None,
        },
    }
}

/// What the first `n` pieces of code of a list come to.
pub open spec fn list_runs(cs: Seq<Code>, n: nat, st: Held, w: World) -> Option<Seq<Val>>
    decreases cs, n, 0nat,
{
    if n == 0 || n > cs.len() {
        Some(Seq::empty())
    } else {
        match (list_runs(cs, (n - 1) as nat, st, w), runs(cs[n - 1], st, w)) {
            (Some(xs), Some(x)) => Some(xs.push(x)),
            _ => None,
        }
    }
}

/// What the variables hold once the first `n` of a block have their values, each made with those before it.
pub open spec fn held_after(vs: Seq<(Seq<char>, Code)>, n: nat, st: Held, w: World) -> Option<Held>
    decreases vs, n, 0nat,
{
    if n == 0 || n > vs.len() {
        Some(st)
    } else {
        match held_after(vs, (n - 1) as nat, st, w) {
            Some(before) => match runs(vs[n - 1].1, before, w) {
                Some(x) => Some(before.insert(vs[n - 1].0, x)),
                None => None,
            },
            None => None,
        }
    }
}

/// What code pushes.
pub open spec fn pushed(p: Push, st: Held, w: World) -> Option<Seq<Val>>
    decreases p, breadth(p) + 1, 0nat, 0nat,
{
    match p {
        Push::Value(c) => match runs(c, st, w) {
            Some(x) => Some(seq![x]),
            None => None,
        },
        Push::When { cond, yes } => match runs(cond, st, w) {
            Some(x) => if truthy(x) {
                pushed(*yes, st, w)
            } else {
                Some(Seq::empty())
            },
            None => None,
        },
        Push::Fork { cond, yes, no } => match runs(cond, st, w) {
            Some(x) => if truthy(x) {
                pushed(*yes, st, w)
            } else {
                pushed(*no, st, w)
            },
            None => None,
        },
        Push::Each { over, .. } => match runs(over, st, w) {
            Some(x) => Some((w.items)(x)),
            None => None,
        },
        Push::Loops { .. } => loops_push(p, 0, st, w),
        Push::Within { vars, body } => match held_after(vars, vars.len(), st, w) {
            Some(inner) => pushed(*body, inner, w),
            None => None,
        },
    }
}

/// The number of loops that code is.
pub open spec fn breadth(p: Push) -> nat {
    match p {
        Push::Loops { vars, .. } => vars.len() + 1,
        _ => 0,
    }
}

/// What the loops from the `i`-th on push.
pub open spec fn loops_push(p: Push, i: nat, st: Held, w: World) -> Option<Seq<Val>>
    decreases p, breadth(p) - i, 1nat, 0nat,
{
    match p {
        Push::Loops { vars, body } => if i >= vars.len() {
            pushed(*body, st, w)
        } else {
            match runs(vars[i as int].1, st, w) {
                Some(x) => turns_push(p, i, st, w, (w.items)(x), (w.items)(x).len()),
                None => None,
            }
        },
        _ => None,
    }
}

/// What the first `n` turns of the `i`-th loop push.
pub open spec fn turns_push(p: Push, i: nat, st: Held, w: World, xs: Seq<Val>, n: nat) -> Option<Seq<Val>>
    decreases p, breadth(p) - i, 0nat, n,
{
    match p {
        Push::Loops { vars, body } => if n == 0 || i >= vars.len() {
            Some(Seq::empty())
        } else {
            match (
                turns_push(p, i, st, w, xs, (n - 1) as nat),
                loops_push(p, i + 1, st.insert(vars[i as int].0, xs[n - 1]), w),
            ) {
                (Some(a), Some(b)) => Some(a + b),
                _ => None,
            }
        },
        _ => None,
    }
}

/// What the first `n` pieces of code push.
pub open spec fn parts_run(ps: Seq<Push>, n: nat, st: Held, w: World) -> Option<Seq<Val>>
    decreases ps, n, 0nat,
{
    if n == 0 || n > ps.len() {
        Some(Seq::empty())
    } else {
        match (parts_run(ps, (n - 1) as nat, st, w), pushed(ps[n - 1], st, w)) {
            (Some(a), Some(b)) => Some(a + b),
            _ => None,
        }
    }
}

/// What an expression comes to with given variables, as the evaluator has it: none where the evaluation
/// fails, or where a form of expression has no native code.
pub open spec fn value_of(e: Expr, vars: Held, w: World) -> Option<Val>
    decreases e, 0nat, 0nat, 0nat,
{
    match e.kind {
        ExprKind::Num(n) => Some(Val::Num(n)),
        ExprKind::Bool(b) => Some(Val::Bool(b)),
        ExprKind::Undef => Some(Val::Undef),
        ExprKind::Str(s) => Some(Val::Str(s@)),
        ExprKind::Ident(name) => if vars.contains_key(name@) {
            Some(vars[name@])
        } else {
            None
        },
        ExprKind::Unary { op, operand } => match value_of(*operand, vars, w) {
            Some(x) => Some(transformed(op, x, w.f).0),
            None => None,
        },
        ExprKind::Binary { op, lhs, rhs } => match value_of(*lhs, vars, w) {
            Some(x) => if op == BinOp::And && !truthy(x) {
                Some(Val::Bool(false))
            } else if op == BinOp::Or && truthy(x) {
                Some(Val::Bool(true))
            } else {
                match value_of(*rhs, vars, w) {
                    Some(y) => Some(combined(op, x, y, w.f).0),
                    None => None,
                }
            },
            None => None,
        },
        ExprKind::Ternary { cond, yes, no } => match value_of(*cond, vars, w) {
            Some(x) => value_of(
                if truthy(x) {
                    *yes
                } else {
                    *no
                },
                vars,
                w,
            ),
            None => None,
        },
        ExprKind::Index { base, index } => match (value_of(*base, vars, w), value_of(*index, vars, w)) {
            (Some(x), Some(y)) => Some(indexed(x, y)),
            _ => None,
        },
        ExprKind::Member { base, field } => match value_of(*base, vars, w) {
            Some(x) => Some(member_at(x, field@)),
            None => None,
        },
        ExprKind::Let { bindings, body } => match vars_after(bindings@, bindings@.len(), vars, w) {
            Some(inner) => value_of(*body, inner, w),
            None => None,
        },
        ExprKind::Assert { args, body, .. } => if args@.len() == 0 {
            None
        } else {
            match value_of(args@[0].value, vars, w) {
                Some(x) => if truthy(x) {
                    match body {
                        Some(b) => value_of(*b, vars, w),
                        None => Some(Val::Undef),
                    }
                } else {
                    None
                },
                None => None,
            }
        },
        ExprKind::Range { start, step, end } => {
            let by = match step {
                Some(p) => value_of(*p, vars, w),
                None => Some(Val::Num(ONE)),
            };
            match (value_of(*start, vars, w), by, value_of(*end, vars, w)) {
                (Some(x), Some(y), Some(z)) => Some(range_of(x, y, z)),
                _ => None,
            }
        },
        ExprKind::Vector(items) => match contributions(items@, items@.len(), vars, w) {
            Some(xs) => Some(vector_of(xs)),
            None => None,
        },
        ExprKind::Call { callee, args } => match callee.kind {
            ExprKind::Ident(name) => match arg_values(args@, args@.len(), vars, w) {
                Some(xs) => (w.apply)(name@, xs),
                None => None,
            },
            _ => None,
        },
        _ => None,
    }
}

/// The values of the first `n` arguments of a call, with the names that they are given by.
pub open spec fn arg_values(args: Seq<Arg>, n: nat, vars: Held, w: World) -> Option<
    Seq<(Option<Seq<char>>, Val)>,
>
    decreases args, n, 0nat, 0nat,
{
    if n == 0 || n > args.len() {
        Some(Seq::empty())
    } else {
        match (arg_values(args, (n - 1) as nat, vars, w), value_of(args[n - 1].value, vars, w)) {
            (Some(xs), Some(x)) => Some(xs.push((crate::ast::opt_text(args[n - 1].name), x))),
            _ => None,
        }
    }
}

/// The variables once the first `n` bindings of a `let` are made, each with those before it.
pub open spec fn vars_after(bs: Seq<Arg>, n: nat, vars: Held, w: World) -> Option<Held>
    decreases bs, n, 0nat, 0nat,
{
    if n == 0 || n > bs.len() {
        Some(vars)
    } else {
        match (vars_after(bs, (n - 1) as nat, vars, w), bs[n - 1].name) {
            (Some(before), Some(name)) => match value_of(bs[n - 1].value, before, w) {
                Some(x) => Some(before.insert(name@, x)),
                None => None,
            },
            _ => None,
        }
    }
}

/// The number of loops that an element is.
pub open spec fn loop_count(e: Expr) -> nat {
    match e.kind {
        ExprKind::LcFor { bindings, .. } => bindings@.len() + 1,
        _ => 0,
    }
}

/// What an element contributes to the vector that it stands in.
pub open spec fn contributed(e: Expr, vars: Held, w: World) -> Option<Seq<Val>>
    decreases e, loop_count(e) + 2, 0nat, 0nat,
{
    match e.kind {
        ExprKind::LcFor { .. } => loop_values(e, 0, vars, w),
        ExprKind::LcIf { cond, yes, no } => match value_of(*cond, vars, w) {
            Some(x) => if truthy(x) {
                contributed(*yes, vars, w)
            } else {
                match no {
                    Some(b) => contributed(*b, vars, w),
                    None => Some(Seq::empty()),
                }
            },
            None => None,
        },
        ExprKind::LcEach(inner) => match value_of(*inner, vars, w) {
            Some(x) => Some((w.items)(x)),
            None => None,
        },
        ExprKind::Let { bindings, body } => match vars_after(bindings@, bindings@.len(), vars, w) {
            Some(inner) => contributed(*body, inner, w),
            None => None,
        },
        _ => match value_of(e, vars, w) {
            Some(x) => Some(seq![x]),
            None => None,
        },
    }
}

/// What the loops of an element contribute from the `i`-th on.
pub open spec fn loop_values(e: Expr, i: nat, vars: Held, w: World) -> Option<Seq<Val>>
    decreases e, loop_count(e) + 1 - i, 1nat, 0nat,
{
    match e.kind {
        ExprKind::LcFor { bindings, body } => if i >= bindings@.len() {
            contributed(*body, vars, w)
        } else {
            match value_of(bindings@[i as int].value, vars, w) {
                Some(x) => turn_values(e, i, vars, w, (w.items)(x), (w.items)(x).len()),
                None => None,
            }
        },
        _ => None,
    }
}

/// What the first `n` turns of the `i`-th loop contribute.
pub open spec fn turn_values(e: Expr, i: nat, vars: Held, w: World, xs: Seq<Val>, n: nat) -> Option<Seq<Val>>
    decreases e, loop_count(e) + 1 - i, 0nat, n,
{
    match e.kind {
        ExprKind::LcFor { bindings, body } => if n == 0 || i >= bindings@.len() {
            Some(Seq::empty())
        } else {
            match bindings@[i as int].name {
                None => None,
                Some(name) => match (
                    turn_values(e, i, vars, w, xs, (n - 1) as nat),
                    loop_values(e, i + 1, vars.insert(name@, xs[n - 1]), w),
                ) {
                    (Some(a), Some(b)) => Some(a + b),
                    _ => None,
                },
            }
        },
        _ => None,
    }
}

/// What the first `n` elements of a vector contribute.
pub open spec fn contributions(es: Seq<Expr>, n: nat, vars: Held, w: World) -> Option<Seq<Val>>
    decreases es, n, 0nat, 0nat,
{
    if n == 0 || n > es.len() {
        Some(Seq::empty())
    } else {
        match (contributions(es, (n - 1) as nat, vars, w), contributed(es[n - 1], vars, w)) {
            (Some(a), Some(b)) => Some(a + b),
            _ => None,
        }
    }
}

/// Whether a slot is the lowest one that is free.
pub open spec fn lowest_free(slots: Seq<Option<Val>>, i: int) -> bool {
    0 <= i < slots.len() && slots[i] is None && forall|j: int| 0 <= j < i ==> (#[trigger] slots[j]) is Some
}

/// Whether a parameter is the first one of its name.
pub open spec fn first_named(params: Seq<Seq<char>>, name: Seq<char>, i: int) -> bool {
    0 <= i < params.len() && params[i] == name && forall|j: int| 0 <= j < i ==> (#[trigger] params[j]) != name
}

/// The parameters as the first `n` values fill them: one without a name the lowest one that is free, one with
/// a name the parameter of that name.
pub open spec fn filled(args: Seq<(Option<Seq<char>>, Val)>, n: nat, params: Seq<Seq<char>>) -> Seq<Option<Val>>
    decreases n,
{
    if n == 0 {
        Seq::new(params.len(), |i: int| None)
    } else {
        let before = filled(args, (n - 1) as nat, params);
        match args[n - 1].0 {
            None => before.update(choose|i: int| lowest_free(before, i), Some(args[n - 1].1)),
            Some(name) => before.update(choose|i: int| first_named(params, name, i), Some(args[n - 1].1)),
        }
    }
}

/// Whether native code can stand for the functions that are called: a builtin makes of the values what the
/// evaluator makes of a call with them, whatever names they are given by; and native code makes of the values
/// that fill the first parameters what the evaluator makes of a call that fills these.
pub open spec fn faithful(cx: Known, w: World) -> bool {
    &&& forall|name: Seq<char>, args: Seq<(Option<Seq<char>>, Val)>|
        known(cx.builtins, name) ==> #[trigger] (w.apply)(name, args) == Some(
            (w.builtin)(name, Seq::new(args.len(), |i: int| args[i].1)),
        )
    &&& forall|name: Seq<char>, args: Seq<(Option<Seq<char>>, Val)>, params: Seq<Seq<char>>, m: nat|
        #![trigger (w.apply)(name, args), signature_from(cx.siblings, name, 0), prefix_filled(args, params, m)]
        !known(cx.builtins, name) && signature_from(cx.siblings, name, 0) == Some(params) && prefix_filled(
            args,
            params,
            m,
        ) ==> (w.apply)(name, args) == (w.native)(
            name,
            Seq::new(m, |i: int| filled(args, args.len(), params)[i]->Some_0),
        )
}

/// Whether values fill exactly the first `m` parameters.
pub open spec fn prefix_filled(args: Seq<(Option<Seq<char>>, Val)>, params: Seq<Seq<char>>, m: nat) -> bool {
    let slots = filled(args, args.len(), params);
    &&& m <= slots.len()
    &&& forall|i: int| 0 <= i < slots.len() ==> ((#[trigger] slots[i]) is Some <==> i < m)
}

/// The value of a constant that code holds.
pub open spec fn baked_value(b: Bake) -> Val {
    match b {
        Bake::Num(n) => Val::Num(n),
        Bake::NumList(xs) => Val::NumList(xs),
    }
}

/// Whether the variables of code hold what the names mean: what stands for a name in scope holds its value,
/// and a name that is only known as a constant has that.
pub open spec fn agrees(cx: Known, env: Seq<(Seq<char>, Seq<char>)>, st: Held, vars: Held) -> bool {
    forall|name: Seq<char>|
        match #[trigger] ident_of(env, name, env.len()) {
            Some(id) => st.contains_key(id) && vars.contains_key(name) && vars[name] == st[id],
            None => match bake_from(cx.baked, name, 0) {
                Some(b) => vars.contains_key(name) && vars[name] == baked_value(b),
                None => true,
            },
        }
}

/// Whether code comes to what an expression comes to, wherever the variables agree with the names.
pub open spec fn means(cx: Known, e: Expr, env: Seq<(Seq<char>, Seq<char>)>, c: Code) -> bool {
    forall|st: Held, vars: Held, w: World|
        #![trigger runs(c, st, w), value_of(e, vars, w)]
        agrees(cx, env, st, vars) && faithful(cx, w) ==> runs(c, st, w) == value_of(e, vars, w)
}

/// Whether code pushes what an element contributes, wherever the variables agree with the names.
pub open spec fn pushes(cx: Known, e: Expr, env: Seq<(Seq<char>, Seq<char>)>, p: Push) -> bool {
    forall|st: Held, vars: Held, w: World|
        #![trigger pushed(p, st, w), contributed(e, vars, w)]
        agrees(cx, env, st, vars) && faithful(cx, w) ==> pushed(p, st, w) == contributed(e, vars, w)
}

/// Whether nothing in scope is named as what is bound from the `k`-th on will be.
pub open spec fn clean(env: Seq<(Seq<char>, Seq<char>)>, k: u64) -> bool {
    forall|i: int, j: u64, name: Seq<char>|
        #![trigger env[i], fresh_text(j, name)]
        0 <= i < env.len() && j >= k ==> env[i].1 != fresh_text(j, name)
}

/// Names that are bound at different places are not the same.
proof fn lemma_fresh(j: u64, k: u64, a: Seq<char>, b: Seq<char>)
    requires
        fresh_text(j, a) == fresh_text(k, b),
    ensures
        j == k,
{
    reveal_strlit("l");
    reveal_strlit("_");
    let d = decimal(j as nat);
    let e = decimal(k as nat);
    crate::chars::law_digits_read_back(j as nat, 10);
    crate::chars::law_digits_read_back(k as nat, 10);
    let x = fresh_text(j, a);
    let y = fresh_text(k, b);
    assert(x[1 + d.len() as int] == '_');
    assert(y[1 + e.len() as int] == '_');
    if d.len() < e.len() {
        assert(y[1 + d.len() as int] == e[d.len() as int]);
    } else if e.len() < d.len() {
        assert(x[1 + e.len() as int] == d[e.len() as int]);
    } else {
        assert forall|i: int| 0 <= i < d.len() implies d[i] == e[i] by {
            assert(x[1 + i] == d[i]);
            assert(y[1 + i] == e[i]);
        }
        assert(d =~= e);
    }
}

proof fn lemma_ident_prefix(env: Seq<(Seq<char>, Seq<char>)>, x: (Seq<char>, Seq<char>), name: Seq<char>, n: nat)
    requires
        n <= env.len(),
    ensures
        ident_of(env.push(x), name, n) == ident_of(env, name, n),
    decreases n,
{
    if n > 0 {
        lemma_ident_prefix(env, x, name, (n - 1) as nat);
    }
}

proof fn lemma_ident_stands(env: Seq<(Seq<char>, Seq<char>)>, name: Seq<char>, n: nat)
    requires
        n <= env.len(),
    ensures
        ident_of(env, name, n) matches Some(id) ==> exists|i: int| 0 <= i < n && (#[trigger] env[i]).1 == id,
    decreases n,
{
    if n > 0 {
        lemma_ident_stands(env, name, (n - 1) as nat);
        if env[n - 1].0 == name {
            assert(env[n - 1].1 == ident_of(env, name, n)->Some_0);
        } else if ident_of(env, name, (n - 1) as nat) is Some {
            let id = ident_of(env, name, n)->Some_0;
            let i = choose|i: int| 0 <= i < n - 1 && (#[trigger] env[i]).1 == id;
            assert(env[i].1 == id);
        }
    }
}

/// One more name in scope, with a variable of its own.
proof fn lemma_bound(
    cx: Known,
    env: Seq<(Seq<char>, Seq<char>)>,
    st: Held,
    vars: Held,
    name: Seq<char>,
    k: u64,
    v: Val,
)
    requires
        agrees(cx, env, st, vars),
        clean(env, k),
    ensures
        agrees(cx, env.push((name, fresh_text(k, name))), st.insert(fresh_text(k, name), v), vars.insert(name, v)),
{
    let id = fresh_text(k, name);
    let env1 = env.push((name, id));
    assert forall|x: Seq<char>|
        match #[trigger] ident_of(env1, x, env1.len()) {
            Some(id1) => st.insert(id, v).contains_key(id1) && vars.insert(name, v).contains_key(x) && vars.insert(
                name,
                v,
            )[x] == st.insert(id, v)[id1],
            None => match bake_from(cx.baked, x, 0) {
                Some(b) => vars.insert(name, v).contains_key(x) && vars.insert(name, v)[x] == baked_value(b),
                None => true,
            },
        } by {
        lemma_ident_prefix(env, (name, id), x, env.len());
        if x != name {
            assert(ident_of(env1, x, env1.len()) == ident_of(env, x, env.len()));
            lemma_ident_stands(env, x, env.len());
            if ident_of(env, x, env.len()) is Some {
                let other = ident_of(env, x, env.len())->Some_0;
                let i = choose|i: int| 0 <= i < env.len() && (#[trigger] env[i]).1 == other;
                assert(env[i].1 != fresh_text(k, name));
            }
        }
    }
}

proof fn lemma_clean_later(env: Seq<(Seq<char>, Seq<char>)>, j: u64, k: u64)
    requires
        clean(env, j),
        j <= k,
    ensures
        clean(env, k),
{
}

proof fn lemma_clean_more(env: Seq<(Seq<char>, Seq<char>)>, name: Seq<char>, k: u64)
    requires
        clean(env, k),
        k < u64::MAX,
    ensures
        clean(env.push((name, fresh_text(k, name))), (k + 1) as u64),
{
    let env1 = env.push((name, fresh_text(k, name)));
    assert forall|i: int, j: u64, n: Seq<char>|
        #![trigger env1[i], fresh_text(j, n)]
        0 <= i < env1.len() && j >= k + 1 implies env1[i].1 != fresh_text(j, n) by {
        if i < env.len() {
            assert(env1[i] == env[i]);
            assert(env[i].1 != fresh_text(j, n));
        } else if fresh_text(k, name) == fresh_text(j, n) {
            lemma_fresh(k, j, name, n);
        }
    }
}

proof fn lemma_bits(xs: Seq<u64>, n: nat)
    requires
        n <= xs.len(),
    ensures
        bits_listed(xs, n) == joined(crate::emit::bits_texts(xs), ", "@, n),
    decreases n,
{
    if n > 0 {
        lemma_bits(xs, (n - 1) as nat);
    }
}

proof fn lemma_list_written(cs: Seq<Code>, ts: Seq<Seq<char>>, n: nat)
    requires
        n <= cs.len(),
        cs.len() == ts.len(),
        forall|i: int| 0 <= i < cs.len() ==> written(#[trigger] cs[i]) == ts[i],
    ensures
        list_written(cs, n) == joined(ts, ", "@, n),
    decreases n,
{
    if n > 0 {
        lemma_list_written(cs, ts, (n - 1) as nat);
    }
}

/// More code in a list does not change how the first ones are written, and what they come to.
proof fn lemma_list_longer(cs: Seq<Code>, c: Code, n: nat, st: Held, w: World)
    requires
        n <= cs.len(),
    ensures
        list_runs(cs.push(c), n, st, w) == list_runs(cs, n, st, w),
    decreases n,
{
    if n > 0 {
        lemma_list_longer(cs, c, (n - 1) as nat, st, w);
    }
}

proof fn lemma_variables_longer(vs: Seq<(Seq<char>, Code)>, v: (Seq<char>, Code), n: nat)
    requires
        n <= vs.len(),
    ensures
        variables_written(vs.push(v), n) == variables_written(vs, n),
        loops_written(vs.push(v), n) == loops_written(vs, n),
    decreases n,
{
    if n > 0 {
        lemma_variables_longer(vs, v, (n - 1) as nat);
    }
}

proof fn lemma_held_longer(vs: Seq<(Seq<char>, Code)>, v: (Seq<char>, Code), n: nat, st: Held, w: World)
    requires
        n <= vs.len(),
    ensures
        held_after(vs.push(v), n, st, w) == held_after(vs, n, st, w),
    decreases n,
{
    if n > 0 {
        lemma_held_longer(vs, v, (n - 1) as nat, st, w);
    }
}

proof fn lemma_parts_longer(ps: Seq<Push>, p: Push, n: nat, acc: Seq<char>)
    requires
        n <= ps.len(),
    ensures
        parts_written(ps.push(p), n, acc) == parts_written(ps, n, acc),
    decreases n,
{
    if n > 0 {
        lemma_parts_longer(ps, p, (n - 1) as nat, acc);
    }
}

proof fn lemma_parts_run_longer(ps: Seq<Push>, p: Push, n: nat, st: Held, w: World)
    requires
        n <= ps.len(),
    ensures
        parts_run(ps.push(p), n, st, w) == parts_run(ps, n, st, w),
    decreases n,
{
    if n > 0 {
        lemma_parts_run_longer(ps, p, (n - 1) as nat, st, w);
    }
}

proof fn lemma_ends(n: nat)
    ensures
        ends_written(n) == repeated("} "@, n),
    decreases n,
{
    if n > 0 {
        lemma_ends((n - 1) as nat);
    }
}

/// An expression that has a text contributes its value where it is an element.
proof fn lemma_plain(
    cx: Known,
    e: Expr,
    env: Seq<(Seq<char>, Seq<char>)>,
    k: u64,
    vars: Held,
    w: World,
)
    requires
        emitted(cx, e, env, k) is Ok,
    ensures
        contributed(e, vars, w) == match value_of(e, vars, w) {
            Some(x) => Some(seq![x]),
            None => None,
        },
    decreases e,
{
    match e.kind {
        ExprKind::Let { bindings, body } => {
            let (t, env1, k1) = lets(cx, bindings@, bindings@.len(), env, k)->Ok_0;
            match vars_after(bindings@, bindings@.len(), vars, w) {
                Some(inner) => {
                    lemma_plain(cx, *body, env1, k1, inner, w);
                },
                None => {},
            }
        },
        _ => {},
    }
}

proof fn lemma_up(cx: Known, e: Expr, env: Seq<(Seq<char>, Seq<char>)>, k: u64)
    ensures
        emitted(cx, e, env, k) matches Ok((t, k1)) ==> k <= k1,
    decreases e, 0nat,
{
    match e.kind {
        ExprKind::Unary { op, operand } => {
            lemma_up(cx, *operand, env, k);
        },
        ExprKind::Binary { op, lhs, rhs } => {
            lemma_up(cx, *lhs, env, k);
            if let Ok((a, k1)) = emitted(cx, *lhs, env, k) {
                lemma_up(cx, *rhs, env, k1);
            }
        },
        ExprKind::Ternary { cond, yes, no } => {
            lemma_up(cx, *cond, env, k);
            if let Ok((a, k1)) = emitted(cx, *cond, env, k) {
                lemma_up(cx, *yes, env, k1);
                if let Ok((b, k2)) = emitted(cx, *yes, env, k1) {
                    lemma_up(cx, *no, env, k2);
                }
            }
        },
        ExprKind::Index { base, index } => {
            lemma_up(cx, *base, env, k);
            if let Ok((a, k1)) = emitted(cx, *base, env, k) {
                lemma_up(cx, *index, env, k1);
            }
        },
        ExprKind::Member { base, field } => {
            lemma_up(cx, *base, env, k);
        },
        ExprKind::Let { bindings, body } => {
            lemma_up_lets(cx, bindings@, bindings@.len(), env, k);
            if let Ok((t, env1, k1)) = lets(cx, bindings@, bindings@.len(), env, k) {
                lemma_up(cx, *body, env1, k1);
            }
        },
        ExprKind::Assert { args, body, .. } => {
            if args@.len() > 0 {
                lemma_up(cx, args@[0].value, env, k);
                if let Ok((a, k1)) = emitted(cx, args@[0].value, env, k) {
                    if let Some(x) = body {
                        lemma_up(cx, *x, env, k1);
                    }
                }
            }
        },
        ExprKind::Range { start, step, end } => {
            lemma_up(cx, *start, env, k);
            if let Ok((a, k1)) = emitted(cx, *start, env, k) {
                match step {
                    Some(p) => {
                        lemma_up(cx, *p, env, k1);
                        if let Ok((b, k2)) = emitted(cx, *p, env, k1) {
                            lemma_up(cx, *end, env, k2);
                        }
                    },
                    None => {
                        lemma_up(cx, *end, env, k1);
                    },
                }
            }
        },
        ExprKind::Vector(items) => {
            lemma_up_listed(cx, items@, items@.len(), env, k);
            lemma_up_elements(cx, items@, items@.len(), fresh_text(k, "acc"@), env, bumped(k));
        },
        ExprKind::Call { callee, args } => {
            if let ExprKind::Ident(name) = callee.kind {
                lemma_up_args(cx, args@, args@.len(), env, k);
                if let Some(params) = signature_from(cx.siblings, name@, 0) {
                    lemma_up_slotted(cx, args@, args@.len(), name@, params, env, k);
                }
            }
        },
        _ => {},
    }
}

proof fn lemma_up_listed(cx: Known, es: Seq<Expr>, n: nat, env: Seq<(Seq<char>, Seq<char>)>, k: u64)
    ensures
        listed(cx, es, n, env, k) matches Ok((t, k1)) ==> k <= k1,
    decreases es, n,
{
    if 0 < n <= es.len() {
        lemma_up_listed(cx, es, (n - 1) as nat, env, k);
        if let Ok((t, k1)) = listed(cx, es, (n - 1) as nat, env, k) {
            lemma_up(cx, es[n - 1], env, k1);
        }
    }
}

proof fn lemma_up_args(cx: Known, args: Seq<Arg>, n: nat, env: Seq<(Seq<char>, Seq<char>)>, k: u64)
    ensures
        arg_list(cx, args, n, env, k) matches Ok((t, k1)) ==> k <= k1,
    decreases args, n,
{
    if 0 < n <= args.len() {
        lemma_up_args(cx, args, (n - 1) as nat, env, k);
        if let Ok((t, k1)) = arg_list(cx, args, (n - 1) as nat, env, k) {
            lemma_up(cx, args[n - 1].value, env, k1);
        }
    }
}

proof fn lemma_up_lets(cx: Known, bs: Seq<Arg>, n: nat, env: Seq<(Seq<char>, Seq<char>)>, k: u64)
    ensures
        lets(cx, bs, n, env, k) matches Ok((t, e, k1)) ==> k <= k1,
    decreases bs, n,
{
    if 0 < n <= bs.len() {
        lemma_up_lets(cx, bs, (n - 1) as nat, env, k);
        if let Ok((t, env1, k1)) = lets(cx, bs, (n - 1) as nat, env, k) {
            lemma_up(cx, bs[n - 1].value, env1, k1);
        }
    }
}

proof fn lemma_up_fors(cx: Known, bs: Seq<Arg>, n: nat, env: Seq<(Seq<char>, Seq<char>)>, k: u64)
    ensures
        fors(cx, bs, n, env, k) matches Ok((t, e, k1)) ==> k <= k1,
    decreases bs, n,
{
    if 0 < n <= bs.len() {
        lemma_up_fors(cx, bs, (n - 1) as nat, env, k);
        if let Ok((t, env1, k1)) = fors(cx, bs, (n - 1) as nat, env, k) {
            lemma_up(cx, bs[n - 1].value, env1, k1);
        }
    }
}

proof fn lemma_up_slotted(
    cx: Known,
    args: Seq<Arg>,
    n: nat,
    callee: Seq<char>,
    params: Seq<Seq<char>>,
    env: Seq<(Seq<char>, Seq<char>)>,
    k: u64,
)
    ensures
        slotted(cx, args, n, callee, params, env, k) matches Ok((t, k1)) ==> k <= k1,
    decreases args, n,
{
    if 0 < n <= args.len() {
        lemma_up_slotted(cx, args, (n - 1) as nat, callee, params, env, k);
        if let Ok((t, k1)) = slotted(cx, args, (n - 1) as nat, callee, params, env, k) {
            lemma_up(cx, args[n - 1].value, env, k1);
        }
    }
}

proof fn lemma_up_element(cx: Known, e: Expr, acc: Seq<char>, env: Seq<(Seq<char>, Seq<char>)>, k: u64)
    ensures
        element(cx, e, acc, env, k) matches Ok((t, k1)) ==> k <= k1,
    decreases e, 1nat,
{
    match e.kind {
        ExprKind::LcFor { bindings, body } => {
            lemma_up_fors(cx, bindings@, bindings@.len(), env, k);
            if let Ok((t, env1, k1)) = fors(cx, bindings@, bindings@.len(), env, k) {
                lemma_up_element(cx, *body, acc, env1, k1);
            }
        },
        ExprKind::LcIf { cond, yes, no } => {
            lemma_up(cx, *cond, env, k);
            if let Ok((c, k1)) = emitted(cx, *cond, env, k) {
                lemma_up_element(cx, *yes, acc, env, k1);
                if let Ok((y, k2)) = element(cx, *yes, acc, env, k1) {
                    if let Some(x) = no {
                        lemma_up_element(cx, *x, acc, env, k2);
                    }
                }
            }
        },
        ExprKind::LcEach(inner) => {
            lemma_up(cx, *inner, env, k);
        },
        ExprKind::Let { bindings, body } => {
            lemma_up_lets(cx, bindings@, bindings@.len(), env, k);
            if let Ok((t, env1, k1)) = lets(cx, bindings@, bindings@.len(), env, k) {
                lemma_up_element(cx, *body, acc, env1, k1);
            }
        },
        _ => {
            lemma_up(cx, e, env, k);
        },
    }
}

proof fn lemma_up_elements(
    cx: Known,
    es: Seq<Expr>,
    n: nat,
    acc: Seq<char>,
    env: Seq<(Seq<char>, Seq<char>)>,
    k: u64,
)
    ensures
        elements(cx, es, n, acc, env, k) matches Ok((t, k1)) ==> k <= k1,
    decreases es, n,
{
    if 0 < n <= es.len() {
        lemma_up_elements(cx, es, (n - 1) as nat, acc, env, k);
        if let Ok((t, k1)) = elements(cx, es, (n - 1) as nat, acc, env, k) {
            lemma_up_element(cx, es[n - 1], acc, env, k1);
        }
    }
}

/// Whether the variables of a block come to hold what the bindings of a `let` come to, wherever the variables
/// before them agree with the names.
pub open spec fn binds(
    cx: Known,
    bs: Seq<Arg>,
    n: nat,
    env: Seq<(Seq<char>, Seq<char>)>,
    inner: Seq<(Seq<char>, Seq<char>)>,
    vs: Seq<(Seq<char>, Code)>,
) -> bool {
    forall|st: Held, vars: Held, w: World|
        #![trigger held_after(vs, n, st, w), vars_after(bs, n, vars, w)]
        agrees(cx, env, st, vars) && faithful(cx, w) ==> match (held_after(vs, n, st, w), vars_after(bs, n, vars, w)) {
            (Some(a), Some(b)) => agrees(cx, inner, a, b),
            (None, None) => true,
            _ => false,
        }
}

/// Whether code comes to the values of the first `n` expressions of a list.
pub open spec fn lists(cx: Known, es: Seq<Expr>, n: nat, env: Seq<(Seq<char>, Seq<char>)>, cs: Seq<Code>) -> bool {
    &&& cs.len() == n
    &&& forall|i: int| 0 <= i < n ==> means(cx, #[trigger] es[i], env, cs[i])
}

/// Whether the `i`-th loop of code runs as the `i`-th binding of a `for` does.
pub open spec fn loop_stands(
    cx: Known,
    bs: Seq<Arg>,
    i: int,
    env: Seq<(Seq<char>, Seq<char>)>,
    k: u64,
    v: (Seq<char>, Code),
    at: u64,
) -> bool {
    let outer = fors(cx, bs, i as nat, env, k)->Ok_0.1;
    let inner = fors(cx, bs, (i + 1) as nat, env, k)->Ok_0.1;
    &&& bs[i].name matches Some(name) && v.0 == fresh_text(at, name@) && inner == outer.push((name@, v.0))
    &&& clean(outer, at)
    &&& means(cx, bs[i].value, outer, v.1)
}

proof fn mean_unary(cx: Known, e: Expr, env: Seq<(Seq<char>, Seq<char>)>, a: Code)
    requires
        e.kind is Unary,
        means(cx, *e.kind->Unary_operand, env, a),
    ensures
        means(cx, e, env, Code::Unary(e.kind->Unary_op, Box::new(a))),
{
    let whole = Code::Unary(e.kind->Unary_op, Box::new(a));
    assert forall|st: Held, vars: Held, w: World|
        #![trigger runs(whole, st, w), value_of(e, vars, w)]
        agrees(cx, env, st, vars) && faithful(cx, w) implies runs(whole, st, w) == value_of(e, vars, w) by {
        assert(runs(a, st, w) == value_of(*e.kind->Unary_operand, vars, w));
    }
}

proof fn mean_binary(cx: Known, e: Expr, env: Seq<(Seq<char>, Seq<char>)>, a: Code, b: Code)
    requires
        e.kind is Binary,
        means(cx, *e.kind->Binary_lhs, env, a),
        means(cx, *e.kind->Binary_rhs, env, b),
    ensures
        means(cx, e, env, match e.kind->Binary_op {
            BinOp::And => Code::Both(Box::new(a), Box::new(b)),
            BinOp::Or => Code::Either(Box::new(a), Box::new(b)),
            op => Code::Binary(op, Box::new(a), Box::new(b)),
        }),
{
    let whole = match e.kind->Binary_op {
            BinOp::And => Code::Both(Box::new(a), Box::new(b)),
            BinOp::Or => Code::Either(Box::new(a), Box::new(b)),
            op => Code::Binary(op, Box::new(a), Box::new(b)),
        };
    assert forall|st: Held, vars: Held, w: World|
        #![trigger runs(whole, st, w), value_of(e, vars, w)]
        agrees(cx, env, st, vars) && faithful(cx, w) implies runs(whole, st, w) == value_of(e, vars, w) by {
        assert(runs(a, st, w) == value_of(*e.kind->Binary_lhs, vars, w));
        assert(runs(b, st, w) == value_of(*e.kind->Binary_rhs, vars, w));
    }
}

proof fn mean_branch(cx: Known, e: Expr, env: Seq<(Seq<char>, Seq<char>)>, a: Code, b: Code, c: Code)
    requires
        e.kind is Ternary,
        means(cx, *e.kind->Ternary_cond, env, a),
        means(cx, *e.kind->Ternary_yes, env, b),
        means(cx, *e.kind->Ternary_no, env, c),
    ensures
        means(cx, e, env, Code::Branch { cond: Box::new(a), yes: Box::new(b), no: Box::new(c) }),
{
    let whole = Code::Branch { cond: Box::new(a), yes: Box::new(b), no: Box::new(c) };
    assert forall|st: Held, vars: Held, w: World|
        #![trigger runs(whole, st, w), value_of(e, vars, w)]
        agrees(cx, env, st, vars) && faithful(cx, w) implies runs(whole, st, w) == value_of(e, vars, w) by {
        assert(runs(a, st, w) == value_of(*e.kind->Ternary_cond, vars, w));
        assert(runs(b, st, w) == value_of(*e.kind->Ternary_yes, vars, w));
        assert(runs(c, st, w) == value_of(*e.kind->Ternary_no, vars, w));
    }
}

proof fn mean_index(cx: Known, e: Expr, env: Seq<(Seq<char>, Seq<char>)>, a: Code, b: Code)
    requires
        e.kind is Index,
        means(cx, *e.kind->Index_base, env, a),
        means(cx, *e.kind->Index_index, env, b),
    ensures
        means(cx, e, env, Code::Index { base: Box::new(a), at: Box::new(b) }),
{
    let whole = Code::Index { base: Box::new(a), at: Box::new(b) };
    assert forall|st: Held, vars: Held, w: World|
        #![trigger runs(whole, st, w), value_of(e, vars, w)]
        agrees(cx, env, st, vars) && faithful(cx, w) implies runs(whole, st, w) == value_of(e, vars, w) by {
        assert(runs(a, st, w) == value_of(*e.kind->Index_base, vars, w));
        assert(runs(b, st, w) == value_of(*e.kind->Index_index, vars, w));
    }
}

proof fn mean_member(cx: Known, e: Expr, env: Seq<(Seq<char>, Seq<char>)>, a: Code)
    requires
        e.kind is Member,
        means(cx, *e.kind->Member_base, env, a),
    ensures
        means(cx, e, env, Code::Member { base: Box::new(a), field: e.kind->Member_field@ }),
{
    let whole = Code::Member { base: Box::new(a), field: e.kind->Member_field@ };
    assert forall|st: Held, vars: Held, w: World|
        #![trigger runs(whole, st, w), value_of(e, vars, w)]
        agrees(cx, env, st, vars) && faithful(cx, w) implies runs(whole, st, w) == value_of(e, vars, w) by {
        assert(runs(a, st, w) == value_of(*e.kind->Member_base, vars, w));
    }
}

proof fn mean_guard(cx: Known, e: Expr, env: Seq<(Seq<char>, Seq<char>)>, a: Code, b: Code)
    requires
        e.kind is Assert,
        e.kind->Assert_args@.len() > 0,
        means(cx, e.kind->Assert_args@[0].value, env, a),
        match e.kind->Assert_body {
            Some(x) => means(cx, *x, env, b),
            None => b == Code::Nothing,
        },
    ensures
        means(cx, e, env, Code::Guard { cond: Box::new(a), body: Box::new(b) }),
{
    let whole = Code::Guard { cond: Box::new(a), body: Box::new(b) };
    assert forall|st: Held, vars: Held, w: World|
        #![trigger runs(whole, st, w), value_of(e, vars, w)]
        agrees(cx, env, st, vars) && faithful(cx, w) implies runs(whole, st, w) == value_of(e, vars, w) by {
        assert(runs(a, st, w) == value_of(e.kind->Assert_args@[0].value, vars, w));
        match e.kind->Assert_body {
            Some(x) => {
                assert(runs(b, st, w) == value_of(*x, vars, w));
            },
            None => {
                assert(runs(b, st, w) == Some(Val::Undef));
            },
        }
    }
}

proof fn mean_range(cx: Known, e: Expr, env: Seq<(Seq<char>, Seq<char>)>, a: Code, b: Code, c: Code)
    requires
        e.kind is Range,
        means(cx, *e.kind->Range_start, env, a),
        match e.kind->Range_step {
            Some(x) => means(cx, *x, env, b),
            None => b == Code::One,
        },
        means(cx, *e.kind->Range_end, env, c),
    ensures
        means(cx, e, env, Code::Range { start: Box::new(a), step: Box::new(b), end: Box::new(c) }),
{
    let whole = Code::Range { start: Box::new(a), step: Box::new(b), end: Box::new(c) };
    assert forall|st: Held, vars: Held, w: World|
        #![trigger runs(whole, st, w), value_of(e, vars, w)]
        agrees(cx, env, st, vars) && faithful(cx, w) implies runs(whole, st, w) == value_of(e, vars, w) by {
        assert(runs(a, st, w) == value_of(*e.kind->Range_start, vars, w));
        match e.kind->Range_step {
            Some(x) => {
                assert(runs(b, st, w) == value_of(*x, vars, w));
            },
            None => {
                assert(runs(b, st, w) == Some(Val::Num(ONE)));
            },
        }
        assert(runs(c, st, w) == value_of(*e.kind->Range_end, vars, w));
    }
}

/// Reads the code of an expression back from its text.
#[verifier::spinoff_prover]
#[verifier::rlimit(60)]
proof fn read_expr(cx: Known, e: Expr, env: Seq<(Seq<char>, Seq<char>)>, k: u64) -> (c: Code)
    requires
        emitted(cx, e, env, k) matches Ok((t, k1)) && k1 < u64::MAX,
        clean(env, k),
    ensures
        written(c) == emitted(cx, e, env, k)->Ok_0.0,
        means(cx, e, env, c),
    decreases e, 0nat,
{
    lemma_up(cx, e, env, k);
    let text = emitted(cx, e, env, k)->Ok_0.0;
    match e.kind {
        ExprKind::Num(n) => {
            let c = Code::Number(n);
            assert(written(c) =~= text);
            assert(means(cx, e, env, c));
            c
        },
        ExprKind::Bool(b) => {
            let c = Code::Truth(b);
            assert(written(c) =~= text);
            assert(means(cx, e, env, c));
            c
        },
        ExprKind::Undef => {
            let c = Code::Nothing;
            assert(written(c) =~= text);
            assert(means(cx, e, env, c));
            c
        },
        ExprKind::Str(s) => {
            let c = Code::Text(s@);
            assert(written(c) =~= text);
            assert(means(cx, e, env, c));
            c
        },
        ExprKind::Ident(name) => match ident_of(env, name@, env.len()) {
            Some(id) => {
                let c = Code::Copy(id);
                assert(written(c) =~= text);
                assert(means(cx, e, env, c));
                c
            },
            None => match bake_from(cx.baked, name@, 0)->Some_0 {
                Bake::Num(n) => {
                    let c = Code::Number(n);
                    assert forall|st: Held, vars: Held, w: World|
                        #![trigger runs(c, st, w), value_of(e, vars, w)]
                        agrees(cx, env, st, vars) && faithful(cx, w) implies runs(c, st, w) == value_of(
                        e,
                        vars,
                        w,
                    ) by {
                        assert(ident_of(env, name@, env.len()) is None);
                    }
                    c
                },
                Bake::NumList(xs) => {
                    let c = Code::Numbers(xs);
                    lemma_bits(xs, xs.len());
                    assert forall|st: Held, vars: Held, w: World|
                        #![trigger runs(c, st, w), value_of(e, vars, w)]
                        agrees(cx, env, st, vars) && faithful(cx, w) implies runs(c, st, w) == value_of(
                        e,
                        vars,
                        w,
                    ) by {
                        assert(ident_of(env, name@, env.len()) is None);
                    }
                    c
                },
            },
        },
        ExprKind::Unary { op, operand } => {
            let a = read_expr(cx, *operand, env, k);
            mean_unary(cx, e, env, a);
            let c0 = Code::Unary(op, Box::new(a));
            assert(written(c0) =~= text);
            c0
        },
        ExprKind::Binary { op, lhs, rhs } => {
            let k1 = emitted(cx, *lhs, env, k)->Ok_0.1;
            lemma_up(cx, *lhs, env, k);
            lemma_up(cx, *rhs, env, k1);
            let a = read_expr(cx, *lhs, env, k);
            let b = read_expr(cx, *rhs, env, k1);
            match op {
                BinOp::And => {
                    mean_binary(cx, e, env, a, b);
                    let c0 = Code::Both(Box::new(a), Box::new(b));
                    assert(written(c0) =~= text);
                    c0
                },
                BinOp::Or => {
                    mean_binary(cx, e, env, a, b);
                    let c0 = Code::Either(Box::new(a), Box::new(b));
                    assert(written(c0) =~= text);
                    c0
                },
                _ => {
                    mean_binary(cx, e, env, a, b);
                    let c0 = Code::Binary(op, Box::new(a), Box::new(b));
                    assert(written(c0) =~= text);
                    c0
                },
            }
        },
        ExprKind::Ternary { cond, yes, no } => {
            let k1 = emitted(cx, *cond, env, k)->Ok_0.1;
            let k2 = emitted(cx, *yes, env, k1)->Ok_0.1;
            lemma_up(cx, *cond, env, k);
            lemma_up(cx, *yes, env, k1);
            lemma_up(cx, *no, env, k2);
            let a = read_expr(cx, *cond, env, k);
            let b = read_expr(cx, *yes, env, k1);
            let c = read_expr(cx, *no, env, k2);
            mean_branch(cx, e, env, a, b, c);
            let c0 = Code::Branch { cond: Box::new(a), yes: Box::new(b), no: Box::new(c) };
            assert(written(c0) =~= text);
            c0
        },
        ExprKind::Index { base, index } => {
            let k1 = emitted(cx, *base, env, k)->Ok_0.1;
            lemma_up(cx, *base, env, k);
            lemma_up(cx, *index, env, k1);
            let a = read_expr(cx, *base, env, k);
            let b = read_expr(cx, *index, env, k1);
            mean_index(cx, e, env, a, b);
            let c0 = Code::Index { base: Box::new(a), at: Box::new(b) };
            assert(written(c0) =~= text);
            c0
        },
        ExprKind::Member { base, field } => {
            let a = read_expr(cx, *base, env, k);
            mean_member(cx, e, env, a);
            let c0 = Code::Member { base: Box::new(a), field: field@ };
            assert(written(c0) =~= text);
            c0
        },
        ExprKind::Let { bindings, body } => {
            let n = bindings@.len();
            let (t, env1, k1) = lets(cx, bindings@, n, env, k)->Ok_0;
            lemma_up_lets(cx, bindings@, n, env, k);
            lemma_up(cx, *body, env1, k1);
            let vs = read_lets(cx, bindings@, n, env, k);
            let b = read_expr(cx, *body, env1, k1);
            let c = Code::Block { vars: vs, body: Box::new(b) };
            assert forall|st: Held, vars: Held, w: World|
                #![trigger runs(c, st, w), value_of(e, vars, w)]
                agrees(cx, env, st, vars) && faithful(cx, w) implies runs(c, st, w) == value_of(e, vars, w) by {
                let x = held_after(vs, n, st, w);
                let y = vars_after(bindings@, n, vars, w);
                if x is Some {
                    assert(runs(b, x->Some_0, w) == value_of(*body, y->Some_0, w));
                }
            }
            c
        },
        ExprKind::Assert { args, body, .. } => {
            let k1 = emitted(cx, args@[0].value, env, k)->Ok_0.1;
            lemma_up(cx, args@[0].value, env, k);
            match body {
                None => {
                    let a = read_expr(cx, args@[0].value, env, k);
                    mean_guard(cx, e, env, a, Code::Nothing);
                    assert(written(Code::Nothing) == "rt::Value::Undef"@);
                    let c0 = Code::Guard { cond: Box::new(a), body: Box::new(Code::Nothing) };
                    assert(written(c0) =~= text);
                    c0
                },
                Some(x) => {
                    lemma_up(cx, *x, env, k1);
                    let a = read_expr(cx, args@[0].value, env, k);
                    let b = read_expr(cx, *x, env, k1);
                    mean_guard(cx, e, env, a, b);
                    let c0 = Code::Guard { cond: Box::new(a), body: Box::new(b) };
                    assert(written(c0) =~= text);
                    c0
                },
            }
        },
        ExprKind::Range { start, step, end } => {
            let k1 = emitted(cx, *start, env, k)->Ok_0.1;
            lemma_up(cx, *start, env, k);
            match step {
                Some(p) => {
                    let k2 = emitted(cx, *p, env, k1)->Ok_0.1;
                    lemma_up(cx, *p, env, k1);
                    lemma_up(cx, *end, env, k2);
                    let a = read_expr(cx, *start, env, k);
                    let b = read_expr(cx, *p, env, k1);
                    let c = read_expr(cx, *end, env, k2);
                    mean_range(cx, e, env, a, b, c);
                    let c0 = Code::Range { start: Box::new(a), step: Box::new(b), end: Box::new(c) };
                    assert(written(c0) =~= text);
                    c0
                },
                None => {
                    lemma_up(cx, *end, env, k1);
                    let a = read_expr(cx, *start, env, k);
                    let c = read_expr(cx, *end, env, k1);
                    mean_range(cx, e, env, a, Code::One, c);
                    assert(written(Code::One) == "rt::Value::Num(f64::from_bits(0x3ff0000000000000_u64))"@);
                    let c0 = Code::Range { start: Box::new(a), step: Box::new(Code::One), end: Box::new(c) };
                    assert(written(c0) =~= text);
                    c0
                },
            }
        },
        ExprKind::Vector(items) => read_vector(cx, e, items@, env, k),
        ExprKind::Call { callee, args } => read_call(cx, e, callee.kind->Ident_0@, args@, env, k),
        _ => Code::Nothing,
    }
}

/// Reads the code of a vector back from its text.
#[verifier::spinoff_prover]
#[verifier::rlimit(40)]
proof fn read_vector(
    cx: Known,
    e: Expr,
    items: Seq<Expr>,
    env: Seq<(Seq<char>, Seq<char>)>,
    k: u64,
) -> (c: Code)
    requires
        e.kind matches ExprKind::Vector(es) && es@ == items,
        emitted(cx, e, env, k) matches Ok((t, k1)) && k1 < u64::MAX,
        clean(env, k),
    ensures
        written(c) == emitted(cx, e, env, k)->Ok_0.0,
        means(cx, e, env, c),
    decreases items, items.len() + 1,
{
    let n = items.len();
    if forall|i: int| 0 <= i < n ==> !comprehends(#[trigger] items[i]) {
        let (ts, k1) = listed(cx, items, n, env, k)->Ok_0;
        let cs = read_list(cx, items, n, env, k);
        lemma_list_written(cs, ts, n);
        let c = Code::Vector(cs);
        assert forall|st: Held, vars: Held, w: World|
            #![trigger runs(c, st, w), value_of(e, vars, w)]
            agrees(cx, env, st, vars) && faithful(cx, w) implies runs(c, st, w) == value_of(e, vars, w) by {
            lemma_list_means(cx, items, n, env, k, cs, st, vars, w);
        }
        c
    } else {
        let acc = fresh_text(k, "acc"@);
        let (t, k1) = elements(cx, items, n, acc, env, bumped(k))->Ok_0;
        lemma_up_elements(cx, items, n, acc, env, bumped(k));
        lemma_clean_later(env, k, bumped(k));
        let ps = read_parts(cx, items, n, acc, env, bumped(k));
        let c = Code::Gather { acc, parts: ps };
        assert forall|st: Held, vars: Held, w: World|
            #![trigger runs(c, st, w), value_of(e, vars, w)]
            agrees(cx, env, st, vars) && faithful(cx, w) implies runs(c, st, w) == value_of(e, vars, w) by {
            lemma_parts_push(cx, items, n, env, ps, st, vars, w);
        }
        c
    }
}

proof fn lemma_list_means(
    cx: Known,
    es: Seq<Expr>,
    n: nat,
    env: Seq<(Seq<char>, Seq<char>)>,
    k: u64,
    cs: Seq<Code>,
    st: Held,
    vars: Held,
    w: World,
)
    requires
        n <= es.len(),
        n <= cs.len(),
        forall|i: int| 0 <= i < n ==> means(cx, #[trigger] es[i], env, cs[i]),
        listed(cx, es, n, env, k) is Ok,
        agrees(cx, env, st, vars),
        faithful(cx, w),
    ensures
        list_runs(cs, n, st, w) == contributions(es, n, vars, w),
    decreases n,
{
    if n > 0 {
        lemma_list_means(cx, es, (n - 1) as nat, env, k, cs, st, vars, w);
        let k1 = listed(cx, es, (n - 1) as nat, env, k)->Ok_0.1;
        lemma_plain(cx, es[n - 1], env, k1, vars, w);
        assert(means(cx, es[n - 1], env, cs[n - 1]));
        assert(runs(cs[n - 1], st, w) == value_of(es[n - 1], vars, w));
        match (contributions(es, (n - 1) as nat, vars, w), value_of(es[n - 1], vars, w)) {
            (Some(xs), Some(x)) => {
                assert(xs.push(x) =~= xs + seq![x]);
            },
            _ => {},
        }
    }
}

proof fn lemma_parts_push(
    cx: Known,
    es: Seq<Expr>,
    n: nat,
    env: Seq<(Seq<char>, Seq<char>)>,
    ps: Seq<Push>,
    st: Held,
    vars: Held,
    w: World,
)
    requires
        n <= es.len(),
        n <= ps.len(),
        forall|i: int| 0 <= i < n ==> pushes(cx, #[trigger] es[i], env, ps[i]),
        agrees(cx, env, st, vars),
        faithful(cx, w),
    ensures
        parts_run(ps, n, st, w) == contributions(es, n, vars, w),
    decreases n,
{
    if n > 0 {
        lemma_parts_push(cx, es, (n - 1) as nat, env, ps, st, vars, w);
        assert(pushes(cx, es[n - 1], env, ps[n - 1]));
        assert(pushed(ps[n - 1], st, w) == contributed(es[n - 1], vars, w));
    }
}

proof fn read_list(cx: Known, es: Seq<Expr>, n: nat, env: Seq<(Seq<char>, Seq<char>)>, k: u64) -> (cs: Seq<Code>)
    requires
        n <= es.len(),
        listed(cx, es, n, env, k) matches Ok((ts, k1)) && k1 < u64::MAX,
        clean(env, k),
    ensures
        lists(cx, es, n, env, cs),
        listed(cx, es, n, env, k)->Ok_0.0.len() == n,
        forall|i: int| 0 <= i < n ==> written(#[trigger] cs[i]) == listed(cx, es, n, env, k)->Ok_0.0[i],
    decreases es, n,
{
    if n == 0 {
        Seq::empty()
    } else {
        let (ts, k1) = listed(cx, es, (n - 1) as nat, env, k)->Ok_0;
        lemma_up_listed(cx, es, (n - 1) as nat, env, k);
        lemma_up(cx, es[n - 1], env, k1);
        let cs = read_list(cx, es, (n - 1) as nat, env, k);
        let c = read_expr(cx, es[n - 1], env, k1);
        let all = cs.push(c);
        assert forall|i: int| 0 <= i < n implies means(cx, #[trigger] es[i], env, all[i]) by {
            if i < n - 1 {
                assert(all[i] == cs[i]);
            }
        }
        assert forall|i: int| 0 <= i < n implies written(#[trigger] all[i]) == listed(
            cx,
            es,
            n,
            env,
            k,
        )->Ok_0.0[i] by {
            if i < n - 1 {
                assert(all[i] == cs[i]);
            }
        }
        all
    }
}

proof fn read_args(cx: Known, args: Seq<Arg>, n: nat, env: Seq<(Seq<char>, Seq<char>)>, k: u64) -> (cs: Seq<Code>)
    requires
        n <= args.len(),
        arg_list(cx, args, n, env, k) matches Ok((ts, k1)) && k1 < u64::MAX,
        clean(env, k),
    ensures
        cs.len() == n,
        forall|i: int| 0 <= i < n ==> means(cx, (#[trigger] args[i]).value, env, cs[i]),
        arg_list(cx, args, n, env, k)->Ok_0.0.len() == n,
        forall|i: int| 0 <= i < n ==> written(#[trigger] cs[i]) == arg_list(cx, args, n, env, k)->Ok_0.0[i],
    decreases args, n,
{
    if n == 0 {
        Seq::empty()
    } else {
        let (ts, k1) = arg_list(cx, args, (n - 1) as nat, env, k)->Ok_0;
        lemma_up_args(cx, args, (n - 1) as nat, env, k);
        lemma_up(cx, args[n - 1].value, env, k1);
        let cs = read_args(cx, args, (n - 1) as nat, env, k);
        let c = read_expr(cx, args[n - 1].value, env, k1);
        let all = cs.push(c);
        assert forall|i: int| 0 <= i < n implies means(cx, (#[trigger] args[i]).value, env, all[i]) by {
            if i < n - 1 {
                assert(all[i] == cs[i]);
            }
        }
        assert forall|i: int| 0 <= i < n implies written(#[trigger] all[i]) == arg_list(
            cx,
            args,
            n,
            env,
            k,
        )->Ok_0.0[i] by {
            if i < n - 1 {
                assert(all[i] == cs[i]);
            }
        }
        all
    }
}

proof fn lemma_args_mean(
    cx: Known,
    args: Seq<Arg>,
    n: nat,
    env: Seq<(Seq<char>, Seq<char>)>,
    cs: Seq<Code>,
    st: Held,
    vars: Held,
    w: World,
)
    requires
        n <= args.len(),
        n <= cs.len(),
        forall|i: int| 0 <= i < n ==> means(cx, (#[trigger] args[i]).value, env, cs[i]),
        agrees(cx, env, st, vars),
        faithful(cx, w),
    ensures
        match (list_runs(cs, n, st, w), arg_values(args, n, vars, w)) {
            (Some(xs), Some(ys)) => xs.len() == n && ys.len() == n && xs =~= Seq::new(n, |i: int| ys[i].1),
            (None, None) => true,
            _ => false,
        },
    decreases n,
{
    if n > 0 {
        lemma_args_mean(cx, args, (n - 1) as nat, env, cs, st, vars, w);
        assert(means(cx, args[n - 1].value, env, cs[n - 1]));
        assert(runs(cs[n - 1], st, w) == value_of(args[n - 1].value, vars, w));
    }
}

proof fn read_lets(cx: Known, bs: Seq<Arg>, n: nat, env: Seq<(Seq<char>, Seq<char>)>, k: u64) -> (vs: Seq<
    (Seq<char>, Code),
>)
    requires
        n <= bs.len(),
        lets(cx, bs, n, env, k) matches Ok((t, env1, k1)) && k1 < u64::MAX,
        clean(env, k),
    ensures
        vs.len() == n,
        variables_written(vs, n) == lets(cx, bs, n, env, k)->Ok_0.0,
        clean(lets(cx, bs, n, env, k)->Ok_0.1, lets(cx, bs, n, env, k)->Ok_0.2),
        binds(cx, bs, n, env, lets(cx, bs, n, env, k)->Ok_0.1, vs),
    decreases bs, n,
{
    if n == 0 {
        Seq::empty()
    } else {
        let m = (n - 1) as nat;
        let (t, env1, k1) = lets(cx, bs, m, env, k)->Ok_0;
        let name = bs[n - 1].name->Some_0;
        let k2 = emitted(cx, bs[n - 1].value, env1, k1)->Ok_0.1;
        lemma_up(cx, bs[n - 1].value, env1, k1);
        let vs = read_lets(cx, bs, m, env, k);
        let c = read_expr(cx, bs[n - 1].value, env1, k1);
        let id = fresh_text(k2, name@);
        let all = vs.push((id, c));
        lemma_clean_later(env1, k1, k2);
        lemma_clean_more(env1, name@, k2);
        lemma_variables_longer(vs, (id, c), m);
        let env2 = env1.push((name@, id));
        assert(lets(cx, bs, n, env, k)->Ok_0.1 == env2);
        assert forall|st: Held, vars: Held, w: World|
            #![trigger held_after(all, n, st, w), vars_after(bs, n, vars, w)]
            agrees(cx, env, st, vars) && faithful(cx, w) implies match (
            held_after(all, n, st, w),
            vars_after(bs, n, vars, w),
        ) {
            (Some(a), Some(b)) => agrees(cx, env2, a, b),
            (None, None) => true,
            _ => false,
        } by {
            lemma_held_longer(vs, (id, c), m, st, w);
            let x = held_after(vs, m, st, w);
            let y = vars_after(bs, m, vars, w);
            if x is Some {
                let a = x->Some_0;
                let b = y->Some_0;
                assert(runs(c, a, w) == value_of(bs[n - 1].value, b, w));
                if runs(c, a, w) is Some {
                    lemma_bound(cx, env1, a, b, name@, k2, runs(c, a, w)->Some_0);
                }
            }
        }
        all
    }
}

proof fn read_fors(cx: Known, bs: Seq<Arg>, n: nat, env: Seq<(Seq<char>, Seq<char>)>, k: u64) -> (r: (
    Seq<(Seq<char>, Code)>,
    Seq<u64>,
))
    requires
        n <= bs.len(),
        fors(cx, bs, n, env, k) matches Ok((t, env1, k1)) && k1 < u64::MAX,
        clean(env, k),
    ensures
        r.0.len() == n,
        r.1.len() == n,
        loops_written(r.0, n) == fors(cx, bs, n, env, k)->Ok_0.0,
        clean(fors(cx, bs, n, env, k)->Ok_0.1, fors(cx, bs, n, env, k)->Ok_0.2),
        forall|i: int| 0 <= i < n ==> loop_stands(cx, bs, i, env, k, #[trigger] r.0[i], r.1[i]),
    decreases bs, n,
{
    if n == 0 {
        (Seq::empty(), Seq::empty())
    } else {
        let m = (n - 1) as nat;
        let (t, env1, k1) = fors(cx, bs, m, env, k)->Ok_0;
        let name = bs[n - 1].name->Some_0;
        let k2 = emitted(cx, bs[n - 1].value, env1, k1)->Ok_0.1;
        lemma_up(cx, bs[n - 1].value, env1, k1);
        let (vs, ats) = read_fors(cx, bs, m, env, k);
        let c = read_expr(cx, bs[n - 1].value, env1, k1);
        let id = fresh_text(k2, name@);
        let all = vs.push((id, c));
        let marks = ats.push(k2);
        lemma_clean_later(env1, k1, k2);
        lemma_clean_more(env1, name@, k2);
        lemma_variables_longer(vs, (id, c), m);
        assert forall|i: int| 0 <= i < n implies loop_stands(cx, bs, i, env, k, #[trigger] all[i], marks[i]) by {
            if i < n - 1 {
                assert(all[i] == vs[i]);
                assert(marks[i] == ats[i]);
            }
        }
        (all, marks)
    }
}

/// Loops of code push what the loops of an element contribute.
proof fn lemma_loops(
    cx: Known,
    e: Expr,
    bs: Seq<Arg>,
    body: Expr,
    i: nat,
    env: Seq<(Seq<char>, Seq<char>)>,
    k: u64,
    vs: Seq<(Seq<char>, Code)>,
    ats: Seq<u64>,
    inner: Push,
    st: Held,
    vars: Held,
    w: World,
)
    requires
        e.kind matches ExprKind::LcFor { bindings, body: b } && bindings@ == bs && *b == body,
        i <= bs.len(),
        vs.len() == bs.len(),
        ats.len() == bs.len(),
        forall|j: int| 0 <= j < bs.len() ==> loop_stands(cx, bs, j, env, k, #[trigger] vs[j], ats[j]),
        pushes(cx, body, fors(cx, bs, bs.len(), env, k)->Ok_0.1, inner),
        agrees(cx, fors(cx, bs, i, env, k)->Ok_0.1, st, vars),
        faithful(cx, w),
    ensures
        loops_push(Push::Loops { vars: vs, body: Box::new(inner) }, i, st, w) == loop_values(e, i, vars, w),
    decreases bs.len() - i, 1nat, 0nat,
{
    if i >= bs.len() {
        assert(pushed(inner, st, w) == contributed(body, vars, w));
    } else {
        assert(loop_stands(cx, bs, i as int, env, k, vs[i as int], ats[i as int]));
        assert(runs(vs[i as int].1, st, w) == value_of(bs[i as int].value, vars, w));
        if runs(vs[i as int].1, st, w) is Some {
            let xs = (w.items)(runs(vs[i as int].1, st, w)->Some_0);
            lemma_turns(cx, e, bs, body, i, env, k, vs, ats, inner, st, vars, w, xs, xs.len());
        }
    }
}

proof fn lemma_turns(
    cx: Known,
    e: Expr,
    bs: Seq<Arg>,
    body: Expr,
    i: nat,
    env: Seq<(Seq<char>, Seq<char>)>,
    k: u64,
    vs: Seq<(Seq<char>, Code)>,
    ats: Seq<u64>,
    inner: Push,
    st: Held,
    vars: Held,
    w: World,
    xs: Seq<Val>,
    n: nat,
)
    requires
        e.kind matches ExprKind::LcFor { bindings, body: b } && bindings@ == bs && *b == body,
        i < bs.len(),
        n <= xs.len(),
        vs.len() == bs.len(),
        ats.len() == bs.len(),
        forall|j: int| 0 <= j < bs.len() ==> loop_stands(cx, bs, j, env, k, #[trigger] vs[j], ats[j]),
        pushes(cx, body, fors(cx, bs, bs.len(), env, k)->Ok_0.1, inner),
        agrees(cx, fors(cx, bs, i, env, k)->Ok_0.1, st, vars),
        faithful(cx, w),
    ensures
        turns_push(Push::Loops { vars: vs, body: Box::new(inner) }, i, st, w, xs, n) == turn_values(
            e,
            i,
            vars,
            w,
            xs,
            n,
        ),
    decreases bs.len() - i, 0nat, n,
{
    if n > 0 {
        lemma_turns(cx, e, bs, body, i, env, k, vs, ats, inner, st, vars, w, xs, (n - 1) as nat);
        assert(loop_stands(cx, bs, i as int, env, k, vs[i as int], ats[i as int]));
        let name = bs[i as int].name->Some_0@;
        let outer = fors(cx, bs, i, env, k)->Ok_0.1;
        lemma_bound(cx, outer, st, vars, name, ats[i as int], xs[n - 1]);
        lemma_loops(
            cx,
            e,
            bs,
            body,
            i + 1,
            env,
            k,
            vs,
            ats,
            inner,
            st.insert(vs[i as int].0, xs[n - 1]),
            vars.insert(name, xs[n - 1]),
            w,
        );
    }
}

proof fn push_when(cx: Known, e: Expr, env: Seq<(Seq<char>, Seq<char>)>, c: Code, y: Push)
    requires
        e.kind matches ExprKind::LcIf { no, .. } && no is None,
        means(cx, *e.kind->LcIf_cond, env, c),
        pushes(cx, *e.kind->LcIf_yes, env, y),
    ensures
        pushes(cx, e, env, Push::When { cond: c, yes: Box::new(y) }),
{
    let whole = Push::When { cond: c, yes: Box::new(y) };
    assert forall|st: Held, vars: Held, w: World|
        #![trigger pushed(whole, st, w), contributed(e, vars, w)]
        agrees(cx, env, st, vars) && faithful(cx, w) implies pushed(whole, st, w) == contributed(e, vars, w) by {
        assert(runs(c, st, w) == value_of(*e.kind->LcIf_cond, vars, w));
        assert(pushed(y, st, w) == contributed(*e.kind->LcIf_yes, vars, w));
    }
}

proof fn push_fork(cx: Known, e: Expr, env: Seq<(Seq<char>, Seq<char>)>, c: Code, y: Push, n: Push)
    requires
        e.kind matches ExprKind::LcIf { no, .. } && no is Some,
        means(cx, *e.kind->LcIf_cond, env, c),
        pushes(cx, *e.kind->LcIf_yes, env, y),
        pushes(cx, *e.kind->LcIf_no->Some_0, env, n),
    ensures
        pushes(cx, e, env, Push::Fork { cond: c, yes: Box::new(y), no: Box::new(n) }),
{
    let whole = Push::Fork { cond: c, yes: Box::new(y), no: Box::new(n) };
    assert forall|st: Held, vars: Held, w: World|
        #![trigger pushed(whole, st, w), contributed(e, vars, w)]
        agrees(cx, env, st, vars) && faithful(cx, w) implies pushed(whole, st, w) == contributed(e, vars, w) by {
        assert(runs(c, st, w) == value_of(*e.kind->LcIf_cond, vars, w));
        assert(pushed(y, st, w) == contributed(*e.kind->LcIf_yes, vars, w));
        assert(pushed(n, st, w) == contributed(*e.kind->LcIf_no->Some_0, vars, w));
    }
}

proof fn push_each(cx: Known, e: Expr, env: Seq<(Seq<char>, Seq<char>)>, c: Code, var: Seq<char>)
    requires
        e.kind is LcEach,
        means(cx, *e.kind->LcEach_0, env, c),
    ensures
        pushes(cx, e, env, Push::Each { var, over: c }),
{
    let whole = Push::Each { var, over: c };
    assert forall|st: Held, vars: Held, w: World|
        #![trigger pushed(whole, st, w), contributed(e, vars, w)]
        agrees(cx, env, st, vars) && faithful(cx, w) implies pushed(whole, st, w) == contributed(e, vars, w) by {
        assert(runs(c, st, w) == value_of(*e.kind->LcEach_0, vars, w));
    }
}

proof fn push_value(cx: Known, e: Expr, env: Seq<(Seq<char>, Seq<char>)>, c: Code)
    requires
        !(e.kind is LcFor || e.kind is LcIf || e.kind is LcEach || e.kind is Let),
        means(cx, e, env, c),
    ensures
        pushes(cx, e, env, Push::Value(c)),
{
    let whole = Push::Value(c);
    assert forall|st: Held, vars: Held, w: World|
        #![trigger pushed(whole, st, w), contributed(e, vars, w)]
        agrees(cx, env, st, vars) && faithful(cx, w) implies pushed(whole, st, w) == contributed(e, vars, w) by {
        assert(runs(c, st, w) == value_of(e, vars, w));
    }
}

/// Reads the code that pushes what an element contributes back from its text.
#[verifier::spinoff_prover]
#[verifier::rlimit(40)]
proof fn read_push(cx: Known, e: Expr, acc: Seq<char>, env: Seq<(Seq<char>, Seq<char>)>, k: u64) -> (p: Push)
    requires
        element(cx, e, acc, env, k) matches Ok((t, k1)) && k1 < u64::MAX,
        clean(env, k),
    ensures
        push_written(p, acc) == element(cx, e, acc, env, k)->Ok_0.0,
        pushes(cx, e, env, p),
    decreases e, 1nat,
{
    let text = element(cx, e, acc, env, k)->Ok_0.0;
    match e.kind {
        ExprKind::LcFor { bindings, body } => {
            let n = bindings@.len();
            let (t, env1, k1) = fors(cx, bindings@, n, env, k)->Ok_0;
            lemma_up_element(cx, *body, acc, env1, k1);
            let (vs, ats) = read_fors(cx, bindings@, n, env, k);
            let b = read_push(cx, *body, acc, env1, k1);
            lemma_ends(n);
            let p = Push::Loops { vars: vs, body: Box::new(b) };
            assert forall|st: Held, vars: Held, w: World|
                #![trigger pushed(p, st, w), contributed(e, vars, w)]
                agrees(cx, env, st, vars) && faithful(cx, w) implies pushed(p, st, w) == contributed(
                e,
                vars,
                w,
            ) by {
                lemma_loops(cx, e, bindings@, *body, 0, env, k, vs, ats, b, st, vars, w);
            }
            assert(push_written(p, acc) =~= text);
            assert(pushes(cx, e, env, p));
            p
        },
        ExprKind::LcIf { cond, yes, no } => {
            let k1 = emitted(cx, *cond, env, k)->Ok_0.1;
            let k2 = element(cx, *yes, acc, env, k1)->Ok_0.1;
            lemma_up(cx, *cond, env, k);
            lemma_up_element(cx, *yes, acc, env, k1);
            match no {
                None => {
                    let c = read_expr(cx, *cond, env, k);
                    let y = read_push(cx, *yes, acc, env, k1);
                    push_when(cx, e, env, c, y);
                    let p = Push::When { cond: c, yes: Box::new(y) };
                    assert(push_written(p, acc) =~= text);
                    assert(pushes(cx, e, env, p));
                    p
                },
                Some(x) => {
                    lemma_up_element(cx, *x, acc, env, k2);
                    let c = read_expr(cx, *cond, env, k);
                    let y = read_push(cx, *yes, acc, env, k1);
                    let n = read_push(cx, *x, acc, env, k2);
                    push_fork(cx, e, env, c, y, n);
                    let p = Push::Fork { cond: c, yes: Box::new(y), no: Box::new(n) };
                    assert(push_written(p, acc) =~= text);
                    assert(pushes(cx, e, env, p));
                    p
                },
            }
        },
        ExprKind::LcEach(inner) => {
            let k1 = emitted(cx, *inner, env, k)->Ok_0.1;
            let c = read_expr(cx, *inner, env, k);
            push_each(cx, e, env, c, fresh_text(k1, "each"@));
            let p = Push::Each { var: fresh_text(k1, "each"@), over: c };
            assert(push_written(p, acc) =~= text);
            assert(pushes(cx, e, env, p));
            p
        },
        ExprKind::Let { bindings, body } => {
            let n = bindings@.len();
            let (t, env1, k1) = lets(cx, bindings@, n, env, k)->Ok_0;
            lemma_up_element(cx, *body, acc, env1, k1);
            let vs = read_lets(cx, bindings@, n, env, k);
            let b = read_push(cx, *body, acc, env1, k1);
            let p = Push::Within { vars: vs, body: Box::new(b) };
            assert forall|st: Held, vars: Held, w: World|
                #![trigger pushed(p, st, w), contributed(e, vars, w)]
                agrees(cx, env, st, vars) && faithful(cx, w) implies pushed(p, st, w) == contributed(
                e,
                vars,
                w,
            ) by {
                let x = held_after(vs, n, st, w);
                let y = vars_after(bindings@, n, vars, w);
                if x is Some {
                    assert(pushed(b, x->Some_0, w) == contributed(*body, y->Some_0, w));
                }
            }
            assert(push_written(p, acc) =~= text);
            assert(pushes(cx, e, env, p));
            p
        },
        _ => {
            let c = read_expr(cx, e, env, k);
            push_value(cx, e, env, c);
            let p = Push::Value(c);
            assert(push_written(p, acc) =~= text);
            assert(pushes(cx, e, env, p));
            p
        },
    }
}

proof fn read_parts(
    cx: Known,
    es: Seq<Expr>,
    n: nat,
    acc: Seq<char>,
    env: Seq<(Seq<char>, Seq<char>)>,
    k: u64,
) -> (ps: Seq<Push>)
    requires
        n <= es.len(),
        elements(cx, es, n, acc, env, k) matches Ok((t, k1)) && k1 < u64::MAX,
        clean(env, k),
    ensures
        ps.len() == n,
        parts_written(ps, n, acc) == elements(cx, es, n, acc, env, k)->Ok_0.0,
        forall|i: int| 0 <= i < n ==> pushes(cx, #[trigger] es[i], env, ps[i]),
    decreases es, n,
{
    if n == 0 {
        Seq::empty()
    } else {
        let m = (n - 1) as nat;
        let (t, k1) = elements(cx, es, m, acc, env, k)->Ok_0;
        lemma_up_elements(cx, es, m, acc, env, k);
        lemma_up_element(cx, es[n - 1], acc, env, k1);
        let ps = read_parts(cx, es, m, acc, env, k);
        let p = read_push(cx, es[n - 1], acc, env, k1);
        let all = ps.push(p);
        lemma_parts_longer(ps, p, m, acc);
        assert forall|i: int| 0 <= i < n implies pushes(cx, #[trigger] es[i], env, all[i]) by {
            if i < n - 1 {
                assert(all[i] == ps[i]);
            }
        }
        all
    }
}

/// Reads the code of a call back from its text.
#[verifier::spinoff_prover]
#[verifier::rlimit(40)]
proof fn read_call(
    cx: Known,
    e: Expr,
    name: Seq<char>,
    args: Seq<Arg>,
    env: Seq<(Seq<char>, Seq<char>)>,
    k: u64,
) -> (c: Code)
    requires
        e.kind matches ExprKind::Call { callee, args: xs } && xs@ == args && (callee.kind matches ExprKind::Ident(
            id,
        ) && id@ == name),
        emitted(cx, e, env, k) matches Ok((t, k1)) && k1 < u64::MAX,
        clean(env, k),
    ensures
        written(c) == emitted(cx, e, env, k)->Ok_0.0,
        means(cx, e, env, c),
    decreases args, args.len() + 1,
{
    let n = args.len();
    if known(cx.builtins, name) {
        let (ts, k1) = arg_list(cx, args, n, env, k)->Ok_0;
        let cs = read_args(cx, args, n, env, k);
        lemma_list_written(cs, ts, n);
        let c = Code::Builtin { name, args: cs };
        assert forall|st: Held, vars: Held, w: World|
            #![trigger runs(c, st, w), value_of(e, vars, w)]
            agrees(cx, env, st, vars) && faithful(cx, w) implies runs(c, st, w) == value_of(e, vars, w) by {
            lemma_args_mean(cx, args, n, env, cs, st, vars, w);
            if let Some(ys) = arg_values(args, n, vars, w) {
                let xs = list_runs(cs, n, st, w)->Some_0;
                assert(xs =~= Seq::new(ys.len(), |i: int| ys[i].1));
                assert((w.apply)(name, ys) == Some((w.builtin)(name, Seq::new(ys.len(), |i: int| ys[i].1))));
            }
        }
        c
    } else {
        let params = signature_from(cx.siblings, name, 0)->Some_0;
        let (slots, k1) = slotted(cx, args, n, name, params, env, k)->Ok_0;
        let codes = read_slots(cx, args, n, name, params, env, k);
        let m = filled_count(slots, slots.len());
        lemma_given(slots, codes, slots.len());
        let ts = given(slots, slots.len());
        let cs = Seq::new(m, |i: int| codes[i]->Some_0);
        assert forall|i: int| 0 <= i < cs.len() implies written(#[trigger] cs[i]) == ts[i] by {}
        lemma_list_written(cs, ts, m);
        let c = Code::Call { name, args: cs };
        assert forall|st: Held, vars: Held, w: World|
            #![trigger runs(c, st, w), value_of(e, vars, w)]
            agrees(cx, env, st, vars) && faithful(cx, w) implies runs(c, st, w) == value_of(e, vars, w) by {
            assert(slots_mean(cx, args, n, params, env, codes));
            assert forall|i: int| 0 <= i < m implies (#[trigger] codes[i]) == Some(cs[i]) by {}
            lemma_prefix_runs(codes, cs, m, st, w);
            if arg_values(args, n, vars, w) is None {
                let i = choose|i: int|
                    0 <= i < codes.len() && ((#[trigger] codes[i]) matches Some(c) && runs(c, st, w) is None);
                assert(slots[i] is Some);
                assert(i < m);
                assert(runs(cs[i], st, w) is None);
                if let Some(xs) = list_runs(cs, m, st, w) {
                    assert(runs(cs[i], st, w) == Some(xs[i]));
                }
            }
            if let Some(ys) = arg_values(args, n, vars, w) {
                lemma_arg_count(args, n, vars, w);
                let vals = filled(ys, n, params);
                assert forall|i: int| 0 <= i < vals.len() implies ((#[trigger] vals[i]) is Some <==> i < m) by {
                    assert(slots[i] is Some <==> codes[i] is Some);
                    assert(codes[i] is Some <==> vals[i] is Some);
                }
                assert(prefix_filled(ys, params, m));
                assert forall|i: int| 0 <= i < m implies runs(#[trigger] cs[i], st, w) == vals[i] by {
                    assert(codes[i] == Some(cs[i]));
                }
                if list_runs(cs, m, st, w) is None {
                    let i = choose|i: int| 0 <= i < m && runs(#[trigger] cs[i], st, w) is None;
                    assert(runs(cs[i], st, w) == vals[i]);
                }
                let xs = list_runs(cs, m, st, w)->Some_0;
                assert forall|i: int| 0 <= i < m implies xs[i] == vals[i]->Some_0 by {
                    assert(runs(cs[i], st, w) == Some(xs[i]));
                }
                assert(xs =~= Seq::new(m, |i: int| vals[i]->Some_0));
                assert((w.apply)(name, ys) == (w.native)(name, Seq::new(m, |i: int| vals[i]->Some_0)));
            }
        }
        c
    }
}

proof fn lemma_arg_count(args: Seq<Arg>, n: nat, vars: Held, w: World)
    requires
        n <= args.len(),
    ensures
        arg_values(args, n, vars, w) matches Some(ys) ==> ys.len() == n,
    decreases n,
{
    if n > 0 {
        lemma_arg_count(args, (n - 1) as nat, vars, w);
    }
}

/// The number of slots with a text before the first one without.
spec fn filled_count(slots: Seq<Option<Seq<char>>>, n: nat) -> nat
    decreases n,
{
    if n == 0 {
        0
    } else if slots[n - 1] is Some {
        filled_count(slots, (n - 1) as nat) + 1
    } else {
        filled_count(slots, (n - 1) as nat)
    }
}

/// Where no slot with a text comes after one without, those with one are the first ones.
proof fn lemma_given(slots: Seq<Option<Seq<char>>>, codes: Seq<Option<Code>>, n: nat)
    requires
        n <= slots.len(),
        codes.len() == slots.len(),
        forall|i: int|
            0 <= i < slots.len() ==> match (#[trigger] slots[i], codes[i]) {
                (Some(t), Some(c)) => written(c) == t,
                (None, None) => true,
                _ => false,
            },
        !has_hole(slots),
    ensures
        filled_count(slots, n) <= n,
        given(slots, n).len() == filled_count(slots, n),
        forall|i: int| 0 <= i < n ==> ((#[trigger] slots[i]) is Some <==> i < filled_count(slots, n)),
        forall|i: int| 0 <= i < filled_count(slots, n) ==> slots[i] == Some(#[trigger] given(slots, n)[i]),
        forall|i: int|
            0 <= i < filled_count(slots, n) ==> (#[trigger] codes[i]) is Some && written(codes[i]->Some_0) == given(
                slots,
                n,
            )[i],
    decreases n,
{
    if n > 0 {
        lemma_given(slots, codes, (n - 1) as nat);
        let m = filled_count(slots, (n - 1) as nat);
        if slots[n - 1] is Some && m < n - 1 {
            assert(slots[m as int] is None);
            assert(has_hole(slots));
        }
        assert forall|i: int| 0 <= i < filled_count(slots, n) implies (#[trigger] codes[i]) is Some && written(
            codes[i]->Some_0,
        ) == given(slots, n)[i] by {
            assert(slots[i] is Some);
        }
    }
}

/// Code that fills the first slots comes to values exactly where all of it does.
proof fn lemma_prefix_runs(codes: Seq<Option<Code>>, cs: Seq<Code>, n: nat, st: Held, w: World)
    requires
        n <= codes.len(),
        n <= cs.len(),
        forall|i: int| 0 <= i < n ==> (#[trigger] codes[i]) == Some(cs[i]),
    ensures
        match list_runs(cs, n, st, w) {
            Some(xs) => xs.len() == n && forall|i: int| 0 <= i < n ==> runs(cs[i], st, w) == Some(#[trigger] xs[i]),
            None => exists|i: int| 0 <= i < n && runs(#[trigger] cs[i], st, w) is None,
        },
    decreases n,
{
    if n > 0 {
        lemma_prefix_runs(codes, cs, (n - 1) as nat, st, w);
        assert(codes[n - 1] == Some(cs[n - 1]));
        if list_runs(cs, n, st, w) is None {
            if runs(cs[n - 1], st, w) is None {
                assert(runs(cs[n - 1], st, w) is None);
            } else {
                let i = choose|i: int| 0 <= i < n - 1 && runs(#[trigger] cs[i], st, w) is None;
                assert(runs(cs[i], st, w) is None);
            }
        }
    }
}

/// Whether the code in slots comes to the values that fill the parameters.
spec fn slots_mean(
    cx: Known,
    args: Seq<Arg>,
    n: nat,
    params: Seq<Seq<char>>,
    env: Seq<(Seq<char>, Seq<char>)>,
    codes: Seq<Option<Code>>,
) -> bool {
    forall|st: Held, vars: Held, w: World|
        #![trigger agrees(cx, env, st, vars), arg_values(args, n, vars, w)]
        agrees(cx, env, st, vars) && faithful(cx, w) ==> match arg_values(args, n, vars, w) {
            Some(ys) => {
                let vals = filled(ys, n, params);
                &&& ys.len() == n
                &&& vals.len() == codes.len()
                &&& forall|i: int|
                    0 <= i < codes.len() ==> match #[trigger] codes[i] {
                        Some(c) => vals[i] is Some && runs(c, st, w) == vals[i],
                        None => vals[i] is None,
                    }
            },
            None => exists|i: int|
                0 <= i < codes.len() && ((#[trigger] codes[i]) matches Some(c) && runs(c, st, w) is None),
        }
}

proof fn lemma_gap(slots: Seq<Option<Seq<char>>>, i: int)
    requires
        0 <= i,
    ensures
        match gap_from(slots, i) {
            Some(j) => i <= j < slots.len() && slots[j] is None && forall|x: int|
                i <= x < j ==> (#[trigger] slots[x]) is Some,
            None => forall|x: int| i <= x < slots.len() ==> (#[trigger] slots[x]) is Some,
        },
    decreases slots.len() - i,
{
    if i < slots.len() && slots[i] is Some {
        lemma_gap(slots, i + 1);
    }
}

proof fn lemma_place(params: Seq<Seq<char>>, name: Seq<char>, i: int)
    requires
        0 <= i,
    ensures
        place_from(params, name, i) matches Some(j) ==> i <= j < params.len() && params[j] == name && forall|x: int|
            i <= x < j ==> (#[trigger] params[x]) != name,
    decreases params.len() - i,
{
    if i < params.len() && params[i] != name {
        lemma_place(params, name, i + 1);
    }
}

proof fn lemma_filled_longer(
    xs: Seq<(Option<Seq<char>>, Val)>,
    x: (Option<Seq<char>>, Val),
    n: nat,
    params: Seq<Seq<char>>,
)
    requires
        n <= xs.len(),
    ensures
        filled(xs.push(x), n, params) == filled(xs, n, params),
    decreases n,
{
    if n > 0 {
        lemma_filled_longer(xs, x, (n - 1) as nat, params);
        assert(xs.push(x)[n - 1] == xs[n - 1]);
    }
}

#[verifier::spinoff_prover]
#[verifier::rlimit(60)]
proof fn read_slots(
    cx: Known,
    args: Seq<Arg>,
    n: nat,
    callee: Seq<char>,
    params: Seq<Seq<char>>,
    env: Seq<(Seq<char>, Seq<char>)>,
    k: u64,
) -> (codes: Seq<Option<Code>>)
    requires
        n <= args.len(),
        slotted(cx, args, n, callee, params, env, k) matches Ok((slots, k1)) && k1 < u64::MAX,
        clean(env, k),
    ensures
        slotted(cx, args, n, callee, params, env, k)->Ok_0.0.len() == params.len(),
        codes.len() == params.len(),
        forall|i: int|
            0 <= i < codes.len() ==> match (
                #[trigger] slotted(cx, args, n, callee, params, env, k)->Ok_0.0[i],
                codes[i],
            ) {
                (Some(t), Some(c)) => written(c) == t,
                (None, None) => true,
                _ => false,
            },
        slots_mean(cx, args, n, params, env, codes),
    decreases args, n,
{
    if n == 0 {
        let codes = Seq::new(params.len(), |i: int| None::<Code>);
        assert(slots_mean(cx, args, n, params, env, codes));
        codes
    } else {
        let m = (n - 1) as nat;
        let a = args[n - 1];
        let (slots, k1) = slotted(cx, args, m, callee, params, env, k)->Ok_0;
        let (v, k2) = emitted(cx, a.value, env, k1)->Ok_0;
        lemma_up_slotted(cx, args, m, callee, params, env, k);
        lemma_up(cx, a.value, env, k1);
        let before = read_slots(cx, args, m, callee, params, env, k);
        let c = read_expr(cx, a.value, env, k1);
        let at = slot_of(a, callee, params, slots)->Ok_0;
        lemma_gap(slots, 0);
        if a.name is Some {
            lemma_place(params, a.name->Some_0@, 0);
        }
        let codes = before.update(at, Some(c));
        assert(0 <= at < params.len() && slots[at] is None && before[at] is None);
        assert forall|st: Held, vars: Held, w: World|
            #![trigger agrees(cx, env, st, vars), arg_values(args, n, vars, w)]
            agrees(cx, env, st, vars) && faithful(cx, w) implies match arg_values(args, n, vars, w) {
            Some(ys) => {
                let vals = filled(ys, n, params);
                &&& ys.len() == n
                &&& vals.len() == codes.len()
                &&& forall|i: int|
                    0 <= i < codes.len() ==> match #[trigger] codes[i] {
                        Some(c) => vals[i] is Some && runs(c, st, w) == vals[i],
                        None => vals[i] is None,
                    }
            },
            None => exists|i: int|
                0 <= i < codes.len() && ((#[trigger] codes[i]) matches Some(c) && runs(c, st, w) is None),
        } by {
            let old_values = arg_values(args, m, vars, w);
            assert(slots_mean(cx, args, m, params, env, before));
            assert(runs(c, st, w) == value_of(a.value, vars, w));
            match (old_values, value_of(a.value, vars, w)) {
                (Some(xs), Some(x)) => {
                    let one = (crate::ast::opt_text(a.name), x);
                    let ys = xs.push(one);
                    assert(arg_values(args, n, vars, w) == Some(ys));
                    lemma_filled_longer(xs, one, m, params);
                    let was = filled(xs, m, params);
                    assert(ys[n - 1] == one);
                    assert forall|i: int| 0 <= i < was.len() implies ((#[trigger] was[i]) is Some <==> slots[i] is Some) by {
                        assert(before[i] is Some <==> slots[i] is Some);
                    }
                    match a.name {
                        None => {
                            assert(lowest_free(was, at));
                            let i = choose|i: int| lowest_free(was, i);
                            assert(lowest_free(was, i));
                            if i < at {
                                assert(was[i] is Some);
                            } else if at < i {
                                assert(was[at] is Some);
                            }
                        },
                        Some(name) => {
                            assert(first_named(params, name@, at));
                            let i = choose|i: int| first_named(params, name@, i);
                            assert(first_named(params, name@, i));
                            if i < at {
                                assert(params[i] != name@);
                            } else if at < i {
                                assert(params[at] != name@);
                            }
                        },
                    }
                    assert(filled(ys, n, params) == was.update(at, Some(x)));
                    assert forall|i: int| 0 <= i < codes.len() implies match #[trigger] codes[i] {
                        Some(c) => was.update(at, Some(x))[i] is Some && runs(c, st, w) == was.update(
                            at,
                            Some(x),
                        )[i],
                        None => was.update(at, Some(x))[i] is None,
                    } by {
                        if i != at {
                            assert(codes[i] == before[i]);
                        }
                    }
                },
                (None, _) => {
                    let i = choose|i: int|
                        0 <= i < before.len() && ((#[trigger] before[i]) matches Some(c) && runs(c, st, w) is None);
                    assert(codes[i] == before[i]);
                },
                (Some(_), None) => {
                    assert(codes[at] == Some(c));
                },
            }
        }
        assert(slots_mean(cx, args, n, params, env, codes));
        codes
    }
}

/// The text of an expression is native code that comes to what the expression comes to: whatever it is, and
/// whatever the variables hold, as long as they hold what the names in scope mean and the functions that are
/// called stand for each other.
pub proof fn law_code_computes(cx: Known, e: Expr, env: Seq<(Seq<char>, Seq<char>)>, k: u64)
    requires
        emitted(cx, e, env, k) matches Ok((t, k1)) && k1 < u64::MAX,
        clean(env, k),
    ensures
        exists|c: Code| #[trigger] written(c) == emitted(cx, e, env, k)->Ok_0.0 && means(cx, e, env, c),
{
    let c = read_expr(cx, e, env, k);
    assert(written(c) == emitted(cx, e, env, k)->Ok_0.0);
}

/// Whether an expression is made of literals, names, operators, conditionals, indices and members alone.
pub open spec fn simple(e: Expr) -> bool
    decreases e,
{
    match e.kind {
        ExprKind::Num(_) | ExprKind::Bool(_) | ExprKind::Undef | ExprKind::Str(_) | ExprKind::Ident(_) => true,
        ExprKind::Unary { operand, .. } => simple(*operand),
        ExprKind::Binary { lhs, rhs, .. } => simple(*lhs) && simple(*rhs),
        ExprKind::Ternary { cond, yes, no } => simple(*cond) && simple(*yes) && simple(*no),
        ExprKind::Index { base, index } => simple(*base) && simple(*index),
        ExprKind::Member { base, .. } => simple(*base),
        _ => false,
    }
}

/// Whether names mean in a scope what the variables hold.
pub open spec fn seen(s: State, scope: Scope, vars: Held) -> bool {
    &&& scope.at < s.store.len()
    &&& forall|name: Seq<char>| #[trigger]
        vars.contains_key(name) ==> meaning(s.store, scope, name) == Some(vars[name])
}

proof fn lemma_still_seen(s: State, e: Expr, scope: Scope, around: Around, t: State, v: Val, vars: Held)
    requires
        yields(s, e, scope, around, t, Ok(v)),
        seen(s, scope, vars),
    ensures
        seen(t, scope, vars),
        t.setup == s.setup,
{
    let j = Job::Eval(e, scope);
    let n = choose|n: nat| #[trigger] ends_at(s, j, around, n, t, Ok::<Val, Fault>(v));
    law_run_keeps_bindings(alone(s, j), around.f, around.h, n);
    assert forall|name: Seq<char>| #[trigger] vars.contains_key(name) implies meaning(t.store, scope, name) == Some(
        vars[name],
    ) by {
        law_growing_keeps_meanings(s.store, t.store, scope.at as int, name);
    }
}

/// The evaluator's own run of a simple expression, and the state that it leaves.
proof fn evaluated(s: State, e: Expr, scope: Scope, around: Around, vars: Held, w: World) -> (t: State)
    requires
        s.setup.budget is None,
        simple(e),
        seen(s, scope, vars),
        w.f == around.f,
        value_of(e, vars, w) is Some,
    ensures
        yields(s, e, scope, around, t, Ok(value_of(e, vars, w)->Some_0)),
        seen(t, scope, vars),
        t.setup == s.setup,
    decreases e,
{
    let v = value_of(e, vars, w)->Some_0;
    let t = match e.kind {
        ExprKind::Num(_) | ExprKind::Bool(_) | ExprKind::Undef | ExprKind::Str(_) => {
            law_literals(s, e, scope, around);
            s
        },
        ExprKind::Ident(name) => {
            law_names(s, e, scope, around);
            assert(vars.contains_key(name@));
            read(s, scope, name@).1
        },
        ExprKind::Unary { op, operand } => {
            let t = evaluated(s, *operand, scope, around, vars, w);
            let a = value_of(*operand, vars, w)->Some_0;
            law_unary(s, e, scope, around, t, Ok(a));
            t.warned(transformed(op, a, w.f).1)
        },
        ExprKind::Binary { op, lhs, rhs } => {
            let t = evaluated(s, *lhs, scope, around, vars, w);
            let a = value_of(*lhs, vars, w)->Some_0;
            if op == BinOp::And && !truthy(a) || op == BinOp::Or && truthy(a) {
                law_short_circuit(s, e, scope, around, t, Ok(a), t, Ok(a));
                t
            } else {
                let u = evaluated(t, *rhs, scope, around, vars, w);
                let b = value_of(*rhs, vars, w)->Some_0;
                if op == BinOp::And || op == BinOp::Or {
                    law_short_circuit(s, e, scope, around, t, Ok(a), u, Ok(b));
                    u
                } else {
                    law_binary(s, e, scope, around, t, Ok(a), u, Ok(b));
                    u.warned(combined(op, a, b, w.f).1)
                }
            }
        },
        ExprKind::Ternary { cond, yes, no } => {
            let t = evaluated(s, *cond, scope, around, vars, w);
            let a = value_of(*cond, vars, w)->Some_0;
            let u = if truthy(a) {
                evaluated(t, *yes, scope, around, vars, w)
            } else {
                evaluated(t, *no, scope, around, vars, w)
            };
            law_ternary(s, e, scope, around, t, Ok(a), u, Ok(v));
            u
        },
        ExprKind::Index { base, index } => {
            let t = evaluated(s, *base, scope, around, vars, w);
            let a = value_of(*base, vars, w)->Some_0;
            let u = evaluated(t, *index, scope, around, vars, w);
            let b = value_of(*index, vars, w)->Some_0;
            law_index(s, e, scope, around, t, Ok(a), u, Ok(b));
            u
        },
        ExprKind::Member { base, field } => {
            let t = evaluated(s, *base, scope, around, vars, w);
            let a = value_of(*base, vars, w)->Some_0;
            law_member(s, e, scope, around, t, Ok(a));
            t
        },
        _ => s,
    };
    assert(yields(s, e, scope, around, t, Ok(v)));
    lemma_still_seen(s, e, scope, around, t, v, vars);
    t
}

/// The text of an expression of literals, names, operators, conditionals, indices and members is native code
/// whose value is the one that the evaluator's own run gives the expression: of a conditional the first
/// branch's exactly where the condition counts as true.
pub proof fn law_code_gives_what_evaluation_yields(
    cx: Known,
    e: Expr,
    env: Seq<(Seq<char>, Seq<char>)>,
    k: u64,
    st: Held,
    vars: Held,
    w: World,
    s: State,
    scope: Scope,
    around: Around,
)
    requires
        emitted(cx, e, env, k) matches Ok((t, k1)) && k1 < u64::MAX,
        clean(env, k),
        simple(e),
        agrees(cx, env, st, vars),
        faithful(cx, w),
        s.setup.budget is None,
        seen(s, scope, vars),
        w.f == around.f,
    ensures
        exists|c: Code, t: State|
            #![trigger written(c), yields(s, e, scope, around, t, Ok(runs(c, st, w)->Some_0))]
            written(c) == emitted(cx, e, env, k)->Ok_0.0 && runs(c, st, w) is Some && yields(
                s,
                e,
                scope,
                around,
                t,
                Ok(runs(c, st, w)->Some_0),
            ),
{
    let c = read_expr(cx, e, env, k);
    lemma_simple_has_value(cx, e, env, k, st, vars, w);
    assert(runs(c, st, w) == value_of(e, vars, w));
    let t = evaluated(s, e, scope, around, vars, w);
    assert(written(c) == emitted(cx, e, env, k)->Ok_0.0);
    assert(yields(s, e, scope, around, t, Ok(runs(c, st, w)->Some_0)));
}

proof fn lemma_simple_has_value(
    cx: Known,
    e: Expr,
    env: Seq<(Seq<char>, Seq<char>)>,
    k: u64,
    st: Held,
    vars: Held,
    w: World,
)
    requires
        emitted(cx, e, env, k) is Ok,
        simple(e),
        agrees(cx, env, st, vars),
    ensures
        value_of(e, vars, w) is Some,
    decreases e,
{
    match e.kind {
        ExprKind::Ident(name) => {
            assert(ident_of(env, name@, env.len()) is Some || ident_of(env, name@, env.len()) is None);
        },
        ExprKind::Unary { op, operand } => {
            lemma_simple_has_value(cx, *operand, env, k, st, vars, w);
        },
        ExprKind::Binary { op, lhs, rhs } => {
            let k1 = emitted(cx, *lhs, env, k)->Ok_0.1;
            lemma_simple_has_value(cx, *lhs, env, k, st, vars, w);
            lemma_simple_has_value(cx, *rhs, env, k1, st, vars, w);
        },
        ExprKind::Ternary { cond, yes, no } => {
            let k1 = emitted(cx, *cond, env, k)->Ok_0.1;
            let k2 = emitted(cx, *yes, env, k1)->Ok_0.1;
            lemma_simple_has_value(cx, *cond, env, k, st, vars, w);
            lemma_simple_has_value(cx, *yes, env, k1, st, vars, w);
            lemma_simple_has_value(cx, *no, env, k2, st, vars, w);
        },
        ExprKind::Index { base, index } => {
            let k1 = emitted(cx, *base, env, k)->Ok_0.1;
            lemma_simple_has_value(cx, *base, env, k, st, vars, w);
            lemma_simple_has_value(cx, *index, env, k1, st, vars, w);
        },
        ExprKind::Member { base, field } => {
            lemma_simple_has_value(cx, *base, env, k, st, vars, w);
        },
        _ => {},
    }
}

/// The default of a parameter as code; nothing where it has none.
pub open spec fn default_written(i: int, name: Seq<char>, default: Code) -> Seq<char> {
    let taken = if i == 0 {
        "args.first()"@
    } else {
        "args.get("@ + decimal(i as nat) + ")"@
    };
    "    let p_"@ + name + " = "@ + if written(default) == "rt::Value::Undef"@ {
        taken + ".cloned().unwrap_or(rt::Value::Undef)"@
    } else {
        taken + ".cloned().unwrap_or_else(|| "@ + written(default) + ")"@
    } + ";\n"@
}

/// How the first `n` parameters of native code are written.
pub open spec fn parameters_written(ps: Seq<(Seq<char>, Code)>, n: nat) -> Seq<char>
    decreases n,
{
    if n == 0 {
        Seq::empty()
    } else {
        parameters_written(ps, (n - 1) as nat) + default_written(n - 1, ps[n - 1].0, ps[n - 1].1)
    }
}

/// What the first `n` parameters of native code hold when it is called with some values: the value at its
/// place, or what its default comes to.
pub open spec fn parameters_held(ps: Seq<(Seq<char>, Code)>, n: nat, args: Seq<Val>, w: World) -> Option<Held>
    decreases n,
{
    if n == 0 {
        Some(Map::empty())
    } else {
        let given = if n - 1 < args.len() {
            Some(args[n - 1])
        } else {
            runs(ps[n - 1].1, Map::empty(), w)
        };
        match (parameters_held(ps, (n - 1) as nat, args, w), given) {
            (Some(st), Some(x)) => Some(st.insert("p_"@ + ps[n - 1].0, x)),
            _ => None,
        }
    }
}

/// What the first `n` parameters of a function mean when it is called with some values, above what names mean
/// where it is defined: a default is evaluated there.
pub open spec fn parameters_mean(params: Seq<Parameter>, n: nat, args: Seq<Val>, vars: Held, w: World) -> Option<Held>
    decreases n,
{
    if n == 0 {
        Some(vars)
    } else {
        let given = if n - 1 < args.len() {
            Some(args[n - 1])
        } else {
            match params[n - 1].default {
                Some(d) => value_of(d, vars, w),
                None => Some(Val::Undef),
            }
        };
        match (parameters_mean(params, (n - 1) as nat, args, vars, w), given) {
            (Some(inner), Some(x)) => Some(inner.insert(params[n - 1].name@, x)),
            _ => None,
        }
    }
}

/// How native code of a name begins: it takes its values as a list, and where calls nest too deep it leaves the call to the
/// evaluator.
pub open spec fn opening_written(name: Seq<char>) -> Seq<char> {
    "/// Generated native for `"@ + name
        + "` \u{2014} semantics route through the interpreter's own value\n/// algebra (`ops::`/`builtins::`), bit-identical to the interpreted reference by construction.\npub(super) fn "@
        + name
        + "(args: &[rt::Value]) -> rt::Result<rt::Value> {\n    // AR.10: past the depth budget, DECLINE to the pure interpreter \u{2014} explicit stack,\n    // same proven semantics; recursion cannot ride the Rust stack unbounded.\n    let Some(_depth) = rt::DepthGuard::enter() else {\n        return rt::run_interpreted(FALLBACK_SOURCES, \""@
        + name + "\", args);\n    };\n"@
}

/// Whether native code with parameters makes of values what a function makes of them.
pub open spec fn stands_for(
    cx: Known,
    params: Seq<Parameter>,
    body: Expr,
    ps: Seq<(Seq<char>, Code)>,
    c: Code,
) -> bool {
    forall|args: Seq<Val>, vars: Held, w: World|
        #![trigger parameters_held(ps, ps.len(), args, w), parameters_mean(params, params.len(), args, vars, w)]
        agrees(cx, Seq::empty(), Map::empty(), vars) && faithful(cx, w) ==> match (
            parameters_held(ps, ps.len(), args, w),
            parameters_mean(params, params.len(), args, vars, w),
        ) {
            (Some(st), Some(inner)) => runs(c, st, w) == value_of(body, inner, w),
            (None, None) => true,
            _ => false,
        }
}

/// The code of a function is native code with its name and its parameters that makes of any values what the
/// function makes of them.
pub proof fn law_function_computes(cx: Known, name: Seq<char>, params: Seq<Parameter>, body: Expr)
    requires
        function_text(cx, name, params, body) is Ok,
        binds_text(cx, name, params, params.len()) matches Ok((t, k)) && (emitted(cx, body, param_env(params), k) matches Ok(
            (b, k1),
        ) && k1 < u64::MAX),
    ensures
        exists|ps: Seq<(Seq<char>, Code)>, c: Code|
            #![trigger parameters_written(ps, ps.len()), written(c)]
            ps.len() == params.len() && function_text(cx, name, params, body)->Ok_0 == opening_written(name)
                + parameters_written(ps, ps.len()) + "    let out = "@ + written(c) + ";\n    Ok(out)\n}\n"@
                && stands_for(cx, params, body, ps, c),
{
    let n = params.len();
    let (t, k) = binds_text(cx, name, params, n)->Ok_0;
    lemma_up(cx, body, param_env(params), k);
    let ps = read_params(cx, name, params, n);
    lemma_params_clean(params, k);
    let c = read_expr(cx, body, param_env(params), k);
    assert forall|args: Seq<Val>, vars: Held, w: World|
        #![trigger parameters_held(ps, ps.len(), args, w), parameters_mean(params, params.len(), args, vars, w)]
        agrees(cx, Seq::empty(), Map::empty(), vars) && faithful(cx, w) implies match (
        parameters_held(ps, ps.len(), args, w),
        parameters_mean(params, params.len(), args, vars, w),
    ) {
        (Some(st), Some(inner)) => runs(c, st, w) == value_of(body, inner, w),
        (None, None) => true,
        _ => false,
    } by {
        lemma_params(cx, params, n, ps, args, vars, w);
        assert(param_env(params).take(n as int) =~= param_env(params));
        match (parameters_held(ps, n, args, w), parameters_mean(params, n, args, vars, w)) {
            (Some(st), Some(inner)) => {
                assert(runs(c, st, w) == value_of(body, inner, w));
            },
            _ => {},
        }
    }
    assert(parameters_written(ps, ps.len()) == t);
    assert(written(c) == emitted(cx, body, param_env(params), k)->Ok_0.0);
}

proof fn lemma_params_clean(params: Seq<Parameter>, k: u64)
    ensures
        clean(param_env(params), k),
{
    reveal_strlit("p_");
    reveal_strlit("l");
    let env = param_env(params);
    assert forall|i: int, j: u64, name: Seq<char>|
        #![trigger env[i], fresh_text(j, name)]
        0 <= i < env.len() && j >= k implies env[i].1 != fresh_text(j, name) by {
        assert(env[i].1[0] == 'p');
        assert(fresh_text(j, name)[0] == 'l');
    }
}

proof fn lemma_up_binds(cx: Known, name: Seq<char>, params: Seq<Parameter>, n: nat)
    requires
        0 < n <= params.len(),
        binds_text(cx, name, params, n) is Ok,
    ensures
        binds_text(cx, name, params, (n - 1) as nat) is Ok,
        binds_text(cx, name, params, (n - 1) as nat)->Ok_0.1 <= binds_text(cx, name, params, n)->Ok_0.1,
{
    let k = binds_text(cx, name, params, (n - 1) as nat)->Ok_0.1;
    if let Some(d) = params[n - 1].default {
        lemma_up(cx, d, Seq::empty(), k);
    }
}

proof fn read_params(cx: Known, name: Seq<char>, params: Seq<Parameter>, n: nat) -> (ps: Seq<(Seq<char>, Code)>)
    requires
        n <= params.len(),
        binds_text(cx, name, params, n) matches Ok((t, k)) && k < u64::MAX,
    ensures
        ps.len() == n,
        parameters_written(ps, n) == binds_text(cx, name, params, n)->Ok_0.0,
        forall|i: int|
            0 <= i < n ==> (#[trigger] ps[i]).0 == params[i].name@ && match params[i].default {
                Some(d) => means(cx, d, Seq::empty(), ps[i].1),
                None => ps[i].1 == Code::Nothing,
            },
    decreases n,
{
    if n == 0 {
        Seq::empty()
    } else {
        let m = (n - 1) as nat;
        lemma_up_binds(cx, name, params, n);
        let before = read_params(cx, name, params, m);
        let k = binds_text(cx, name, params, m)->Ok_0.1;
        let c = match params[n - 1].default {
            Some(d) => read_expr(cx, d, Seq::empty(), k),
            None => Code::Nothing,
        };
        assert(written(Code::Nothing) == "rt::Value::Undef"@);
        let all = before.push((params[n - 1].name@, c));
        lemma_parameters_longer(before, (params[n - 1].name@, c), m);
        assert forall|i: int| 0 <= i < n implies (#[trigger] all[i]).0 == params[i].name@ && match params[i].default {
            Some(d) => means(cx, d, Seq::empty(), all[i].1),
            None => all[i].1 == Code::Nothing,
        } by {
            if i < n - 1 {
                assert(all[i] == before[i]);
            }
        }
        assert(parameters_written(all, n) =~= binds_text(cx, name, params, n)->Ok_0.0);
        all
    }
}

proof fn lemma_parameters_longer(ps: Seq<(Seq<char>, Code)>, p: (Seq<char>, Code), n: nat)
    requires
        n <= ps.len(),
    ensures
        parameters_written(ps.push(p), n) == parameters_written(ps, n),
    decreases n,
{
    if n > 0 {
        lemma_parameters_longer(ps, p, (n - 1) as nat);
    }
}

proof fn lemma_params(
    cx: Known,
    params: Seq<Parameter>,
    n: nat,
    ps: Seq<(Seq<char>, Code)>,
    args: Seq<Val>,
    vars: Held,
    w: World,
)
    requires
        n <= params.len(),
        ps.len() == params.len(),
        forall|i: int|
            0 <= i < ps.len() ==> (#[trigger] ps[i]).0 == params[i].name@ && match params[i].default {
                Some(d) => means(cx, d, Seq::empty(), ps[i].1),
                None => ps[i].1 == Code::Nothing,
            },
        agrees(cx, Seq::empty(), Map::empty(), vars),
        faithful(cx, w),
    ensures
        match (parameters_held(ps, n, args, w), parameters_mean(params, n, args, vars, w)) {
            (Some(st), Some(inner)) => agrees(cx, param_env(params).take(n as int), st, inner),
            (None, None) => true,
            _ => false,
        },
    decreases n,
{
    let env = param_env(params).take(n as int);
    if n == 0 {
        assert(env =~= Seq::empty());
    } else {
        let m = (n - 1) as nat;
        lemma_params(cx, params, m, ps, args, vars, w);
        let name = params[n - 1].name@;
        assert(ps[n - 1].0 == name);
        match params[n - 1].default {
            Some(d) => {
                assert(runs(ps[n - 1].1, Map::empty(), w) == value_of(d, vars, w));
            },
            None => {
                assert(runs(ps[n - 1].1, Map::empty(), w) == Some(Val::Undef));
            },
        }
        let outer = param_env(params).take(m as int);
        assert(env =~= outer.push((name, "p_"@ + name)));
        match (parameters_held(ps, n, args, w), parameters_mean(params, n, args, vars, w)) {
            (Some(st), Some(inner)) => {
                let st0 = parameters_held(ps, m, args, w)->Some_0;
                let inner0 = parameters_mean(params, m, args, vars, w)->Some_0;
                assert forall|x: Seq<char>|
                    match #[trigger] ident_of(env, x, env.len()) {
                        Some(id) => st.contains_key(id) && inner.contains_key(x) && inner[x] == st[id],
                        None => match bake_from(cx.baked, x, 0) {
                            Some(b) => inner.contains_key(x) && inner[x] == baked_value(b),
                            None => true,
                        },
                    } by {
                    lemma_ident_prefix(outer, (name, "p_"@ + name), x, outer.len());
                    if x != name {
                        assert(ident_of(env, x, env.len()) == ident_of(outer, x, outer.len()));
                        lemma_param_ident(params, m, x, m);
                        if ident_of(outer, x, outer.len()) is Some {
                            lemma_prefix_differs(x, name);
                        }
                    }
                }
            },
            _ => {},
        }
    }
}

proof fn lemma_param_ident(params: Seq<Parameter>, m: nat, x: Seq<char>, n: nat)
    requires
        n <= m <= params.len(),
    ensures
        ident_of(param_env(params).take(m as int), x, n) matches Some(id) ==> id == "p_"@ + x,
    decreases n,
{
    if n > 0 {
        lemma_param_ident(params, m, x, (n - 1) as nat);
        assert(param_env(params).take(m as int)[n - 1] == param_env(params)[n - 1]);
    }
}

proof fn lemma_prefix_differs(x: Seq<char>, y: Seq<char>)
    requires
        x != y,
    ensures
        "p_"@ + x != "p_"@ + y,
{
    let p = "p_"@;
    if p + x == p + y {
        assert(x =~= (p + x).skip(p.len() as int));
        assert(y =~= (p + y).skip(p.len() as int));
    }
}

}

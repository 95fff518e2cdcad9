//! Native code for functions: the text of a function that computes what the evaluator computes.

use vstd::prelude::*;

use crate::ast::{is_special, same_name, special, Arg, BinOp, Expr, ExprKind, Name, UnOp};
use crate::chars::{chars_of, cat, cat3, cat5, dec, decimal, hex, hexadecimal};
use crate::machine::{known, names_of};
use crate::schedule::is_known;

verus! {

/// The text of a string as a Rust literal.
pub uninterp spec fn debug_text(s: Seq<char>) -> Seq<char>;

/// `format!("{:?}")` of a string writes it as a Rust string literal that reads back as the string.
/// Which characters it escapes is left to std.
#[verifier::external_body]
pub(crate) fn debug_of(s: &str) -> (r: String)
    ensures
        r@ == debug_text(s@),
{
    format!("{s:?}")
}

/// A constant that native code holds.
#[derive(Debug)]
pub enum Baked {
    Num(u64),
    NumList(Vec<u64>),
}

/// A constant that native code holds, mathematically.
pub enum Bake {
    Num(u64),
    NumList(Seq<u64>),
}

impl View for Baked {
    type V = Bake;

    open spec fn view(&self) -> Bake {
        match self {
            Baked::Num(n) => Bake::Num(*n),
            Baked::NumList(xs) => Bake::NumList(xs@),
        }
    }
}

/// Texts one after the other, the first `n` of them, with a separator between them.
pub open spec fn joined(parts: Seq<Seq<char>>, sep: Seq<char>, n: nat) -> Seq<char>
    decreases n,
{
    if n == 0 {
        Seq::empty()
    } else if n == 1 {
        parts[0]
    } else {
        joined(parts, sep, (n - 1) as nat) + sep + parts[n - 1]
    }
}

/// Some texts, mathematically.
pub open spec fn texts(ts: Seq<String>) -> Seq<Seq<char>> {
    Seq::new(ts.len(), |i: int| ts[i]@)
}

/// Joins texts with a separator.
pub fn join(parts: &Vec<String>, sep: &str) -> (r: String)
    ensures
        r@ == joined(texts(parts@), sep@, parts@.len()),
{
    let ghost all = texts(parts@);
    let mut out: String = String::new();
    let mut i: usize = 0;
    assert(out@ =~= Seq::<char>::empty());
    while i < parts.len()
        invariant
            i <= parts@.len(),
            all == texts(parts@),
            out@ == joined(all, sep@, i as nat),
        decreases parts@.len() - i,
    {
        assert(all[i as int] == parts@[i as int]@);
        if i == 0 {
            out.append(parts[i].as_str());
            assert(out@ =~= all[0]);
        } else {
            out.append(sep);
            out.append(parts[i].as_str());
        }
        i += 1;
    }
    out
}

/// The bits of a number as a literal.
pub open spec fn bits_text(n: u64) -> Seq<char> {
    "f64::from_bits(0x"@ + hexadecimal(n as nat) + "_u64)"@
}

fn bits_of(n: u64) -> (r: String)
    ensures
        r@ == bits_text(n),
{
    cat3("f64::from_bits(0x", hex(n).as_str(), "_u64)")
}

/// The value of a number as an expression.
pub open spec fn num_text(n: u64) -> Seq<char> {
    "rt::Value::Num("@ + bits_text(n) + ")"@
}

fn emit_num(n: u64) -> (r: String)
    ensures
        r@ == num_text(n),
{
    cat3("rt::Value::Num(", bits_of(n).as_str(), ")")
}

/// The bits of numbers as literals.
pub open spec fn bits_texts(xs: Seq<u64>) -> Seq<Seq<char>> {
    Seq::new(xs.len(), |i: int| bits_text(xs[i]))
}

/// A constant as an expression that makes exactly its bits.
pub open spec fn bake_text(b: Bake) -> Seq<char> {
    match b {
        Bake::Num(n) => num_text(n),
        Bake::NumList(xs) => "rt::Value::num_list(vec!["@ + joined(bits_texts(xs), ", "@, xs.len())
            + "])"@,
    }
}

impl Baked {
    /// The expression that makes the constant, bit for bit.
    pub fn emit(&self) -> (r: String)
        ensures
            r@ == bake_text(self@),
    {
        match self {
            Baked::Num(n) => emit_num(*n),
            Baked::NumList(xs) => {
                let ghost all = bits_texts(xs@);
                let mut ts: Vec<String> = Vec::new();
                let mut i: usize = 0;
                while i < xs.len()
                    invariant
                        i <= xs@.len(),
                        all == bits_texts(xs@),
                        texts(ts@) =~= all.take(i as int),
                    decreases xs@.len() - i,
                {
                    let ghost before = texts(ts@);
                    let t: String = bits_of(xs[i]);
                    assert(all[i as int] == t@);
                    ts.push(t);
                    assert(texts(ts@) =~= before.push(t@));
                    i += 1;
                }
                assert(all.take(all.len() as int) =~= all);
                cat3("rt::Value::num_list(vec![", join(&ts, ", ").as_str(), "])")
            },
        }
    }
}

/// The name of a prefix operator.
pub open spec fn unop_text(op: UnOp) -> Seq<char> {
    match op {
        UnOp::Neg => "Neg"@,
        UnOp::Pos => "Pos"@,
        UnOp::Not => "Not"@,
        UnOp::BitNot => "BitNot"@,
    }
}

fn unop_of(op: UnOp) -> (r: &'static str)
    ensures
        r@ == unop_text(op),
{
    match op {
        UnOp::Neg => "Neg",
        UnOp::Pos => "Pos",
        UnOp::Not => "Not",
        UnOp::BitNot => "BitNot",
    }
}

/// The name of a binary operator.
pub open spec fn binop_text(op: BinOp) -> Seq<char> {
    match op {
        BinOp::Add => "Add"@,
        BinOp::Sub => "Sub"@,
        BinOp::Mul => "Mul"@,
        BinOp::Div => "Div"@,
        BinOp::Mod => "Mod"@,
        BinOp::Pow => "Pow"@,
        BinOp::Eq => "Eq"@,
        BinOp::Ne => "Ne"@,
        BinOp::Lt => "Lt"@,
        BinOp::Le => "Le"@,
        BinOp::Gt => "Gt"@,
        BinOp::Ge => "Ge"@,
        BinOp::And => "And"@,
        BinOp::Or => "Or"@,
        BinOp::BitOr => "BitOr"@,
        BinOp::BitAnd => "BitAnd"@,
        BinOp::Shl => "Shl"@,
        BinOp::Shr => "Shr"@,
    }
}

fn binop_of(op: BinOp) -> (r: &'static str)
    ensures
        r@ == binop_text(op),
{
    match op {
        BinOp::Add => "Add",
        BinOp::Sub => "Sub",
        BinOp::Mul => "Mul",
        BinOp::Div => "Div",
        BinOp::Mod => "Mod",
        BinOp::Pow => "Pow",
        BinOp::Eq => "Eq",
        BinOp::Ne => "Ne",
        BinOp::Lt => "Lt",
        BinOp::Le => "Le",
        BinOp::Gt => "Gt",
        BinOp::Ge => "Ge",
        BinOp::And => "And",
        BinOp::Or => "Or",
        BinOp::BitOr => "BitOr",
        BinOp::BitAnd => "BitAnd",
        BinOp::Shl => "Shl",
        BinOp::Shr => "Shr",
    }
}

/// What code may name: the constants it holds, the functions that are generated beside it with
/// their parameters, and the builtins; and how an expression that has no text is shown.
pub struct Known {
    pub baked: Seq<(Seq<char>, Bake)>,
    pub siblings: Seq<(Seq<char>, Seq<Seq<char>>)>,
    pub builtins: Seq<Seq<char>>,
    pub shown: spec_fn(Expr) -> Seq<char>,
}

/// Whether every expression can be shown, and the same one has one showing.
pub open spec fn show_ok<D: Fn(&Expr) -> String>(d: D) -> bool {
    &&& forall|e: &Expr| call_requires(d, (e,))
    &&& forall|e: &Expr, r: String, t: String|
        call_ensures(d, (e,), r) && call_ensures(d, (e,), t) ==> r@ == t@
}

/// How an expression is shown.
pub open spec fn shown_as<D: Fn(&Expr) -> String>(d: D, e: Expr) -> Seq<char> {
    (choose|r: String| call_ensures(d, (&e,), r))@
}

/// A showing as a mathematical function.
pub open spec fn shows<D: Fn(&Expr) -> String>(d: D) -> spec_fn(Expr) -> Seq<char> {
    |e: Expr| shown_as(d, e)
}

fn show_expr<D: Fn(&Expr) -> String>(d: &D, e: &Expr) -> (r: String)
    requires
        show_ok(*d),
    ensures
        r@ == shows(*d)(*e),
{
    d(e)
}

/// The constants, mathematically.
pub open spec fn bakes(bs: Seq<(Name, Baked)>) -> Seq<(Seq<char>, Bake)> {
    Seq::new(bs.len(), |i: int| (bs[i].0@, bs[i].1@))
}

/// The functions with their parameters, mathematically.
pub open spec fn signatures(ss: Seq<(Name, Vec<Name>)>) -> Seq<(Seq<char>, Seq<Seq<char>>)> {
    Seq::new(ss.len(), |i: int| (ss[i].0@, names_of(ss[i].1@)))
}

/// The names in scope with what stands for them, innermost last.
pub open spec fn idents(ls: Seq<(Name, String)>) -> Seq<(Seq<char>, Seq<char>)> {
    Seq::new(ls.len(), |i: int| (ls[i].0@, ls[i].1@))
}

/// What stands for a name among the `n` outermost ones: the innermost of that name.
pub open spec fn ident_of(env: Seq<(Seq<char>, Seq<char>)>, name: Seq<char>, n: nat) -> Option<Seq<char>>
    decreases n,
{
    if n == 0 {
        None
    } else if env[n - 1].0 == name {
        Some(env[n - 1].1)
    } else {
        ident_of(env, name, (n - 1) as nat)
    }
}

/// The constant of a name, from the `i`-th on.
pub open spec fn bake_from(bs: Seq<(Seq<char>, Bake)>, name: Seq<char>, i: int) -> Option<Bake>
    decreases bs.len() - i,
{
    if i >= bs.len() {
        None
    } else if bs[i].0 == name {
        Some(bs[i].1)
    } else {
        bake_from(bs, name, i + 1)
    }
}

/// The parameters of the function of a name, from the `i`-th on.
pub open spec fn signature_from(
    ss: Seq<(Seq<char>, Seq<Seq<char>>)>,
    name: Seq<char>,
    i: int,
) -> Option<Seq<Seq<char>>>
    decreases ss.len() - i,
{
    if i >= ss.len() {
        None
    } else if ss[i].0 == name {
        Some(ss[i].1)
    } else {
        signature_from(ss, name, i + 1)
    }
}

/// The place of a name, from the `i`-th on.
pub open spec fn place_from(ns: Seq<Seq<char>>, name: Seq<char>, i: int) -> Option<int>
    decreases ns.len() - i,
{
    if i >= ns.len() {
        None
    } else if ns[i] == name {
        Some(i)
    } else {
        place_from(ns, name, i + 1)
    }
}

/// A name without the underscores it starts with.
pub open spec fn bare(name: Seq<char>) -> Seq<char>
    decreases name.len(),
{
    if name.len() > 0 && name[0] == '_' {
        bare(name.drop_first())
    } else {
        name
    }
}

/// What stands for the `k`-th bound name.
pub open spec fn fresh_text(k: u64, name: Seq<char>) -> Seq<char> {
    "l"@ + decimal(k as nat) + "_"@ + bare(name)
}

/// The number of the next bound name.
pub open spec fn bumped(k: u64) -> u64 {
    if k == u64::MAX {
        k
    } else {
        (k + 1) as u64
    }
}

fn trim_underscores(name: &str) -> (r: String)
    ensures
        r@ == bare(name@),
{
    let cs: Vec<char> = crate::chars::chars_of(name);
    let mut i: usize = 0;
    assert(name@.skip(0) =~= name@);
    while i < cs.len() && cs[i] == '_'
        invariant
            i <= cs@.len(),
            cs@ == name@,
            bare(name@) == bare(name@.skip(i as int)),
        decreases cs@.len() - i,
    {
        assert(name@.skip(i as int)[0] == '_');
        assert(name@.skip(i as int).drop_first() =~= name@.skip(i + 1));
        i += 1;
    }
    let mut rest: Vec<char> = Vec::new();
    let ghost tail = name@.skip(i as int);
    assert(bare(tail) == tail) by {
        if tail.len() > 0 {
            assert(tail[0] == cs@[i as int]);
        }
    }
    let mut k: usize = i;
    while k < cs.len()
        invariant
            i <= k <= cs@.len(),
            cs@ == name@,
            tail == name@.skip(i as int),
            rest@ =~= tail.take(k - i),
        decreases cs@.len() - k,
    {
        rest.push(cs[k]);
        k += 1;
    }
    assert(tail.take(tail.len() as int) =~= tail);
    crate::chars::text_of(&rest)
}

/// A text with the number of the next bound name, or why there is no text.
pub type Emitted = Result<(Seq<char>, u64), Seq<char>>;

/// Whether an element of a vector makes several.
pub open spec fn comprehends(e: Expr) -> bool {
    e.kind is LcFor || e.kind is LcForC || e.kind is LcIf || e.kind is LcEach
}

/// Whether a binding before the `i`-th has a given name.
pub open spec fn named_before(bs: Seq<Arg>, i: int, name: Seq<char>) -> bool {
    exists|j: int| 0 <= j < i && ((#[trigger] bs[j]).name matches Some(n) && n@ == name)
}

/// The most characters in which it is said that a form of expression has no text.
pub const MOST_SHOWN: usize = 120;

/// Why a form of expression has no text: that it is outside, and how it is shown, in so many characters
/// at most.
pub open spec fn outside(shown: Seq<char>) -> Seq<char> {
    let all = "construct outside the v0 subset: "@ + shown;
    if all.len() <= MOST_SHOWN {
        all
    } else {
        all.take(MOST_SHOWN as int)
    }
}

fn declined(shown: &str) -> (r: String)
    ensures
        r@ == outside(shown@),
{
    let all: String = cat("construct outside the v0 subset: ", shown);
    let cs: Vec<char> = chars_of(all.as_str());
    if cs.len() <= MOST_SHOWN {
        return all;
    }
    let mut cut: Vec<char> = Vec::new();
    let mut i: usize = 0;
    while i < MOST_SHOWN
        invariant
            i <= MOST_SHOWN < cs@.len(),
            cut@ =~= cs@.take(i as int),
        decreases MOST_SHOWN - i,
    {
        cut.push(cs[i]);
        i += 1;
    }
    crate::chars::text_of(&cut)
}

/// The text of an expression.
pub open spec fn emitted(
    cx: Known,
    e: Expr,
    env: Seq<(Seq<char>, Seq<char>)>,
    k: u64,
) -> Emitted
    decreases e, 0nat,
{
    match e.kind {
        ExprKind::Num(n) => Ok((num_text(n), k)),
        ExprKind::Bool(b) => Ok(
            (
                if b {
                    "rt::Value::Bool(true)"@
                } else {
                    "rt::Value::Bool(false)"@
                },
                k,
            ),
        ),
        ExprKind::Undef => Ok(("rt::Value::Undef"@, k)),
        ExprKind::Str(s) => Ok(("rt::Value::string("@ + debug_text(s@) + ")"@, k)),
        ExprKind::Ident(name) => match ident_of(env, name@, env.len()) {
            Some(id) => Ok((id + ".clone()"@, k)),
            None => match bake_from(cx.baked, name@, 0) {
                Some(b) => Ok((bake_text(b), k)),
                None => Err("free read `"@ + name@ + "` has no baked value"@),
            },
        },
        ExprKind::Unary { op, operand } => match emitted(cx, *operand, env, k) {
            Err(m) => Err(m),
            Ok((t, k1)) => Ok(
                ("rt::apply_unary(rt::UnOp::"@ + unop_text(op) + ", "@ + t + ")"@, k1),
            ),
        },
        ExprKind::Binary { op, lhs, rhs } => match emitted(cx, *lhs, env, k) {
            Err(m) => Err(m),
            Ok((a, k1)) => match emitted(cx, *rhs, env, k1) {
                Err(m) => Err(m),
                Ok((b, k2)) => Ok(
                    (
                        match op {
                            BinOp::And => "rt::Value::Bool("@ + a + ".is_truthy() && "@ + b
                                + ".is_truthy())"@,
                            BinOp::Or => "rt::Value::Bool("@ + a + ".is_truthy() || "@ + b
                                + ".is_truthy())"@,
                            _ => "rt::apply_binary(rt::BinOp::"@ + binop_text(op) + ", "@ + a
                                + ", "@ + b + ")"@,
                        },
                        k2,
                    ),
                ),
            },
        },
        ExprKind::Ternary { cond, yes, no } => match emitted(cx, *cond, env, k) {
            Err(m) => Err(m),
            Ok((c, k1)) => match emitted(cx, *yes, env, k1) {
                Err(m) => Err(m),
                Ok((y, k2)) => match emitted(cx, *no, env, k2) {
                    Err(m) => Err(m),
                    Ok((n, k3)) => Ok(
                        ("if "@ + c + ".is_truthy() { "@ + y + " } else { "@ + n + " }"@, k3),
                    ),
                },
            },
        },
        ExprKind::Index { base, index } => match emitted(cx, *base, env, k) {
            Err(m) => Err(m),
            Ok((b, k1)) => match emitted(cx, *index, env, k1) {
                Err(m) => Err(m),
                Ok((i, k2)) => Ok(("rt::index("@ + b + ", &"@ + i + ")"@, k2)),
            },
        },
        ExprKind::Member { base, field } => match emitted(cx, *base, env, k) {
            Err(m) => Err(m),
            Ok((b, k1)) => Ok(("rt::member("@ + b + ", "@ + debug_text(field@) + ")"@, k1)),
        },
        ExprKind::Let { bindings, body } => match lets(cx, bindings@, bindings@.len(), env, k) {
            Err(m) => Err(m),
            Ok((t, env1, k1)) => match emitted(cx, *body, env1, k1) {
                Err(m) => Err(m),
                Ok((b, k2)) => Ok(("{ "@ + t + b + " }"@, k2)),
            },
        },
        ExprKind::Assert { args, body, .. } => if args@.len() == 0 {
            Err("assert with no condition"@)
        } else if args@[0].name is Some {
            Err("named assert condition"@)
        } else {
            match emitted(cx, args@[0].value, env, k) {
                Err(m) => Err(m),
                Ok((c, k1)) => match body {
                    None => Ok(
                        (
                            "{ if !("@ + c
                                + ").is_truthy() { return Err(rt::bosl_assert(\"generated\")); } "@
                                + "rt::Value::Undef"@ + " }"@,
                            k1,
                        ),
                    ),
                    Some(x) => match emitted(cx, *x, env, k1) {
                        Err(m) => Err(m),
                        Ok((b, k2)) => Ok(
                            (
                                "{ if !("@ + c
                                    + ").is_truthy() { return Err(rt::bosl_assert(\"generated\")); } "@
                                    + b + " }"@,
                                k2,
                            ),
                        ),
                    },
                },
            }
        },
        ExprKind::Range { start, step, end } => match emitted(cx, *start, env, k) {
            Err(m) => Err(m),
            Ok((s, k1)) => {
                let middle: Emitted = match step {
                    Some(p) => emitted(cx, *p, env, k1),
                    None => Ok(("rt::Value::Num(f64::from_bits(0x3ff0000000000000_u64))"@, k1)),
                };
                match middle {
                    Err(m) => Err(m),
                    Ok((t, k2)) => match emitted(cx, *end, env, k2) {
                        Err(m) => Err(m),
                        Ok((n, k3)) => Ok(
                            ("rt::build_range(&"@ + s + ", &"@ + t + ", &"@ + n + ")"@, k3),
                        ),
                    },
                }
            },
        },
        ExprKind::Vector(items) => if forall|i: int|
            0 <= i < items@.len() ==> !comprehends(#[trigger] items@[i]) {
            match listed(cx, items@, items@.len(), env, k) {
                Err(m) => Err(m),
                Ok((ts, k1)) => Ok(
                    ("rt::build_vector(vec!["@ + joined(ts, ", "@, ts.len()) + "])"@, k1),
                ),
            }
        } else {
            let acc = fresh_text(k, "acc"@);
            match elements(cx, items@, items@.len(), acc, env, bumped(k)) {
                Err(m) => Err(m),
                Ok((t, k1)) => Ok(
                    (
                        "{ let mut "@ + acc + ": Vec<rt::Value> = Vec::new(); "@ + t
                            + "rt::build_vector("@ + acc + ") }"@,
                        k1,
                    ),
                ),
            }
        },
        ExprKind::Call { callee, args } => match callee.kind {
            ExprKind::Ident(name) => if ident_of(env, name@, env.len()) is Some {
                Err(
                    "call through the local binding `"@ + name@
                        + "` (the AN.10 shape) resolves at runtime"@,
                )
            } else if known(cx.builtins, name@) {
                match arg_list(cx, args@, args@.len(), env, k) {
                    Err(m) => Err(m),
                    Ok((ts, k1)) => Ok(
                        (
                            "rt::builtin(\""@ + name@ + "\", &["@ + joined(ts, ", "@, ts.len())
                                + "])"@,
                            k1,
                        ),
                    ),
                }
            } else {
                match signature_from(cx.siblings, name@, 0) {
                    None => Err(
                        "call to `"@ + name@ + "` (not a builtin or generated sibling)"@,
                    ),
                    Some(params) => match slotted(cx, args@, args@.len(), name@, params, env, k) {
                        Err(m) => Err(m),
                        Ok((slots, k1)) => if has_hole(slots) {
                            Err(
                                "non-contiguous arg fill for sibling `"@ + name@
                                    + "` \u{2014} the slice ABI can't hole"@,
                            )
                        } else {
                            let ts = given(slots, slots.len());
                            Ok((name@ + "(&["@ + joined(ts, ", "@, ts.len()) + "])?"@, k1))
                        },
                    },
                }
            },
            _ => Err("computed callee"@),
        },
        ExprKind::FunctionLiteral { .. } | ExprKind::Echo { .. } | ExprKind::LcFor { .. }
        | ExprKind::LcForC { .. } | ExprKind::LcEach(_) | ExprKind::LcIf { .. } => Err(
            outside((cx.shown)(e)),
        ),
    }
}

/// The texts of the first `n` expressions.
pub open spec fn listed(
    cx: Known,
    es: Seq<Expr>,
    n: nat,
    env: Seq<(Seq<char>, Seq<char>)>,
    k: u64,
) -> Result<(Seq<Seq<char>>, u64), Seq<char>>
    decreases es, n,
{
    if n == 0 || n > es.len() {
        Ok((Seq::empty(), k))
    } else {
        match listed(cx, es, (n - 1) as nat, env, k) {
            Err(m) => Err(m),
            Ok((ts, k1)) => match emitted(cx, es[n - 1], env, k1) {
                Err(m) => Err(m),
                Ok((t, k2)) => Ok((ts.push(t), k2)),
            },
        }
    }
}

/// The texts of the values of the first `n` arguments.
pub open spec fn arg_list(
    cx: Known,
    args: Seq<Arg>,
    n: nat,
    env: Seq<(Seq<char>, Seq<char>)>,
    k: u64,
) -> Result<(Seq<Seq<char>>, u64), Seq<char>>
    decreases args, n,
{
    if n == 0 || n > args.len() {
        Ok((Seq::empty(), k))
    } else {
        match arg_list(cx, args, (n - 1) as nat, env, k) {
            Err(m) => Err(m),
            Ok((ts, k1)) => match emitted(cx, args[n - 1].value, env, k1) {
                Err(m) => Err(m),
                Ok((t, k2)) => Ok((ts.push(t), k2)),
            },
        }
    }
}

/// The text of the first `n` bindings of a `let`, each with the ones before it in scope. A name is
/// bound once.
pub open spec fn lets(
    cx: Known,
    bs: Seq<Arg>,
    n: nat,
    env: Seq<(Seq<char>, Seq<char>)>,
    k: u64,
) -> Result<(Seq<char>, Seq<(Seq<char>, Seq<char>)>, u64), Seq<char>>
    decreases bs, n,
{
    if n == 0 || n > bs.len() {
        Ok((Seq::empty(), env, k))
    } else {
        match lets(cx, bs, (n - 1) as nat, env, k) {
            Err(m) => Err(m),
            Ok((t, env1, k1)) => match bs[n - 1].name {
                None => Err("unnamed let binding"@),
                Some(name) => if named_before(bs, n - 1, name@) {
                    Err("duplicate let binding `"@ + name@ + "`"@)
                } else {
                    match emitted(cx, bs[n - 1].value, env1, k1) {
                        Err(m) => Err(m),
                        Ok((v, k2)) => {
                            let id = fresh_text(k2, name@);
                            Ok(
                                (
                                    t + "let "@ + id + " = "@ + v + "; "@,
                                    env1.push((name@, id)),
                                    bumped(k2),
                                ),
                            )
                        },
                    }
                },
            },
        }
    }
}

/// The text that opens the loops of the first `n` bindings of a `for`, each with the ones before
/// it in scope.
pub open spec fn fors(
    cx: Known,
    bs: Seq<Arg>,
    n: nat,
    env: Seq<(Seq<char>, Seq<char>)>,
    k: u64,
) -> Result<(Seq<char>, Seq<(Seq<char>, Seq<char>)>, u64), Seq<char>>
    decreases bs, n,
{
    if n == 0 || n > bs.len() {
        Ok((Seq::empty(), env, k))
    } else {
        match fors(cx, bs, (n - 1) as nat, env, k) {
            Err(m) => Err(m),
            Ok((t, env1, k1)) => match bs[n - 1].name {
                None => Err("unnamed comprehension binding"@),
                Some(name) => match emitted(cx, bs[n - 1].value, env1, k1) {
                    Err(m) => Err(m),
                    Ok((v, k2)) => {
                        let id = fresh_text(k2, name@);
                        Ok(
                            (
                                t + "for "@ + id + " in rt::iter_values_native(&"@ + v + ") { "@,
                                env1.push((name@, id)),
                                bumped(k2),
                            ),
                        )
                    },
                },
            },
        }
    }
}

/// A text `n` times.
pub open spec fn repeated(t: Seq<char>, n: nat) -> Seq<char>
    decreases n,
{
    if n == 0 {
        Seq::empty()
    } else {
        repeated(t, (n - 1) as nat) + t
    }
}

/// The text that pushes what an element of a vector makes to `acc`.
pub open spec fn element(
    cx: Known,
    e: Expr,
    acc: Seq<char>,
    env: Seq<(Seq<char>, Seq<char>)>,
    k: u64,
) -> Emitted
    decreases e, 1nat,
{
    match e.kind {
        ExprKind::LcFor { bindings, body } => match fors(cx, bindings@, bindings@.len(), env, k) {
            Err(m) => Err(m),
            Ok((t, env1, k1)) => match element(cx, *body, acc, env1, k1) {
                Err(m) => Err(m),
                Ok((b, k2)) => Ok((t + b + repeated("} "@, bindings@.len()), k2)),
            },
        },
        ExprKind::LcIf { cond, yes, no } => match emitted(cx, *cond, env, k) {
            Err(m) => Err(m),
            Ok((c, k1)) => match element(cx, *yes, acc, env, k1) {
                Err(m) => Err(m),
                Ok((y, k2)) => match no {
                    None => Ok(("if ("@ + c + ").is_truthy() { "@ + y + " } "@, k2)),
                    Some(x) => match element(cx, *x, acc, env, k2) {
                        Err(m) => Err(m),
                        Ok((n, k3)) => Ok(
                            (
                                "if ("@ + c + ").is_truthy() { "@ + y + " } else { "@ + n
                                    + " } "@,
                                k3,
                            ),
                        ),
                    },
                },
            },
        },
        ExprKind::LcEach(inner) => match emitted(cx, *inner, env, k) {
            Err(m) => Err(m),
            Ok((v, k1)) => {
                let each = fresh_text(k1, "each"@);
                Ok(
                    (
                        "for "@ + each + " in rt::iter_values_native(&"@ + v + ") { "@ + acc
                            + ".push("@ + each + "); } "@,
                        bumped(k1),
                    ),
                )
            },
        },
        ExprKind::Let { bindings, body } => match lets(cx, bindings@, bindings@.len(), env, k) {
            Err(m) => Err(m),
            Ok((t, env1, k1)) => match element(cx, *body, acc, env1, k1) {
                Err(m) => Err(m),
                Ok((b, k2)) => Ok(("{ "@ + t + b + " } "@, k2)),
            },
        },
        ExprKind::LcForC { .. } => Err("C-style comprehension outside the subset"@),
        _ => match emitted(cx, e, env, k) {
            Err(m) => Err(m),
            Ok((v, k1)) => Ok((acc + ".push("@ + v + ");\n        "@, k1)),
        },
    }
}

/// The text that pushes what the first `n` elements of a vector make to `acc`.
pub open spec fn elements(
    cx: Known,
    es: Seq<Expr>,
    n: nat,
    acc: Seq<char>,
    env: Seq<(Seq<char>, Seq<char>)>,
    k: u64,
) -> Emitted
    decreases es, n,
{
    if n == 0 || n > es.len() {
        Ok((Seq::empty(), k))
    } else {
        match elements(cx, es, (n - 1) as nat, acc, env, k) {
            Err(m) => Err(m),
            Ok((t, k1)) => match element(cx, es[n - 1], acc, env, k1) {
                Err(m) => Err(m),
                Ok((x, k2)) => Ok((t + x, k2)),
            },
        }
    }
}

/// The lowest slot without a text, from the `i`-th on.
pub open spec fn gap_from(slots: Seq<Option<Seq<char>>>, i: int) -> Option<int>
    decreases slots.len() - i,
{
    if i >= slots.len() {
        None
    } else if slots[i] is None {
        Some(i)
    } else {
        gap_from(slots, i + 1)
    }
}

/// The slot that an argument takes: a positional one the lowest that is free, a named one that of
/// its parameter, which must be free.
pub open spec fn slot_of(
    a: Arg,
    callee: Seq<char>,
    params: Seq<Seq<char>>,
    slots: Seq<Option<Seq<char>>>,
) -> Result<int, Seq<char>> {
    match a.name {
        Some(name) => if special(name@) {
            Err("$-arg in sibling call `"@ + callee + "`"@)
        } else {
            match place_from(params, name@, 0) {
                None => Err("named arg `"@ + name@ + "` unknown to sibling `"@ + callee + "`"@),
                Some(i) => if slots[i] is Some {
                    Err("arg `"@ + name@ + "` supplied more than once to `"@ + callee + "`"@)
                } else {
                    Ok(i)
                },
            }
        },
        None => match gap_from(slots, 0) {
            None => Err("too many args to sibling `"@ + callee + "`"@),
            Some(i) => Ok(i),
        },
    }
}

/// The slots that the first `n` arguments fill.
pub open spec fn slotted(
    cx: Known,
    args: Seq<Arg>,
    n: nat,
    callee: Seq<char>,
    params: Seq<Seq<char>>,
    env: Seq<(Seq<char>, Seq<char>)>,
    k: u64,
) -> Result<(Seq<Option<Seq<char>>>, u64), Seq<char>>
    decreases args, n,
{
    if n == 0 || n > args.len() {
        Ok((Seq::new(params.len(), |i: int| None), k))
    } else {
        match slotted(cx, args, (n - 1) as nat, callee, params, env, k) {
            Err(m) => Err(m),
            Ok((slots, k1)) => match emitted(cx, args[n - 1].value, env, k1) {
                Err(m) => Err(m),
                Ok((v, k2)) => match slot_of(args[n - 1], callee, params, slots) {
                    Err(m) => Err(m),
                    Ok(i) => Ok((slots.update(i, Some(v)), k2)),
                },
            },
        }
    }
}

/// Whether a filled slot comes after an empty one.
pub open spec fn has_hole(slots: Seq<Option<Seq<char>>>) -> bool {
    exists|i: int, j: int|
        0 <= i < j < slots.len() && (#[trigger] slots[i]) is None && (#[trigger] slots[j]) is Some
}

/// The texts of the filled ones among the first `n` slots.
pub open spec fn given(slots: Seq<Option<Seq<char>>>, n: nat) -> Seq<Seq<char>>
    decreases n,
{
    if n == 0 {
        Seq::empty()
    } else {
        match slots[n - 1] {
            Some(t) => given(slots, (n - 1) as nat).push(t),
            None => given(slots, (n - 1) as nat),
        }
    }
}

/// Writes the code of one function: the constants it holds, the functions generated beside it,
/// the builtins, how expressions are shown, the names in scope, and the number of the next bound
/// name.
#[derive(Debug)]
pub struct Emitter<'a, D: Fn(&Expr) -> String> {
    pub baked: &'a Vec<(Name, Baked)>,
    pub siblings: &'a Vec<(Name, Vec<Name>)>,
    pub builtins: &'a Vec<Name>,
    pub show: &'a D,
    pub locals: Vec<(Name, String)>,
    pub fresh: u64,
}

/// A text as an emitter in a given state leaves it.
pub open spec fn text_res(r: Result<String, String>, k: u64) -> Emitted {
    match r {
        Ok(t) => Ok((t@, k)),
        Err(m) => Err(m@),
    }
}

impl<'a, D: Fn(&Expr) -> String> Emitter<'a, D> {
    /// What its code may name.
    pub open spec fn cx(self) -> Known {
        Known {
            baked: bakes(self.baked@),
            siblings: signatures(self.siblings@),
            builtins: names_of(self.builtins@),
            shown: shows(*self.show),
        }
    }

    /// Whether expressions can be shown.
    pub open spec fn ok(self) -> bool {
        show_ok(*self.show)
    }

    /// The names in scope.
    pub open spec fn env(self) -> Seq<(Seq<char>, Seq<char>)> {
        idents(self.locals@)
    }

    /// Whether only the number of the next bound name, and the scope, differ.
    pub open spec fn like(self, other: Emitter<'a, D>) -> bool {
        self.baked == other.baked && self.siblings == other.siblings && self.builtins
            == other.builtins && self.show == other.show
    }

    /// What stands for a name that is bound next.
    pub fn fresh_ident(&mut self, name: &str) -> (r: String)
        ensures
            r@ == fresh_text(old(self).fresh, name@),
            final(self).fresh == bumped(old(self).fresh),
            final(self).locals == old(self).locals,
            final(self).like(*old(self)),
    {
        let id: u64 = self.fresh;
        if self.fresh < u64::MAX {
            self.fresh = self.fresh + 1;
        }
        let mut out: String = cat3("l", dec(id).as_str(), "_");
        out.append(trim_underscores(name).as_str());
        out
    }

    fn local(&self, name: &Name) -> (r: Option<usize>)
        ensures
            match r {
                Some(i) => i < self.locals@.len() && ident_of(
                    self.env(),
                    name@,
                    self.env().len(),
                ) == Some(self.locals@[i as int].1@),
                None => ident_of(self.env(), name@, self.env().len()) is None,
            },
    {
        let ghost env = self.env();
        let mut i: usize = self.locals.len();
        while i > 0
            invariant
                i <= self.locals@.len(),
                env == self.env(),
                ident_of(env, name@, env.len()) == ident_of(env, name@, i as nat),
            decreases i,
        {
            i -= 1;
            assert(env[i as int] == (self.locals@[i as int].0@, self.locals@[i as int].1@));
            if same_name(&self.locals[i].0, name) {
                return Some(i);
            }
        }
        None
    }

    fn constant(&self, name: &Name) -> (r: Option<usize>)
        ensures
            match r {
                Some(i) => i < self.baked@.len() && bake_from(self.cx().baked, name@, 0) == Some(
                    self.baked@[i as int].1@,
                ),
                None => bake_from(self.cx().baked, name@, 0) is None,
            },
    {
        let ghost bs = self.cx().baked;
        let mut i: usize = 0;
        while i < self.baked.len()
            invariant
                i <= self.baked@.len(),
                bs == bakes(self.baked@),
                bake_from(bs, name@, 0) == bake_from(bs, name@, i as int),
            decreases self.baked@.len() - i,
        {
            assert(bs[i as int] == (self.baked@[i as int].0@, self.baked@[i as int].1@));
            if same_name(&self.baked[i].0, name) {
                return Some(i);
            }
            i += 1;
        }
        None
    }

    fn sibling(&self, name: &Name) -> (r: Option<usize>)
        ensures
            match r {
                Some(i) => i < self.siblings@.len() && signature_from(
                    self.cx().siblings,
                    name@,
                    0,
                ) == Some(names_of(self.siblings@[i as int].1@)),
                None => signature_from(self.cx().siblings, name@, 0) is None,
            },
    {
        let ghost ss = self.cx().siblings;
        let mut i: usize = 0;
        while i < self.siblings.len()
            invariant
                i <= self.siblings@.len(),
                ss == signatures(self.siblings@),
                signature_from(ss, name@, 0) == signature_from(ss, name@, i as int),
            decreases self.siblings@.len() - i,
        {
            assert(ss[i as int] == (
                self.siblings@[i as int].0@,
                names_of(self.siblings@[i as int].1@),
            ));
            if same_name(&self.siblings[i].0, name) {
                return Some(i);
            }
            i += 1;
        }
        None
    }

    fn close_scope(&mut self, mark: usize, Ghost(env): Ghost<Seq<(Seq<char>, Seq<char>)>>)
        requires
            env.is_prefix_of(old(self).env()),
            env.len() == mark,
        ensures
            final(self).env() == env,
            final(self).fresh == old(self).fresh,
            final(self).like(*old(self)),
    {
        self.locals.truncate(mark);
        assert(self.env() =~= env);
    }

    /// The text of an expression.
    #[verifier::rlimit(40)]
    #[verifier::spinoff_prover]
    pub fn expr(&mut self, e: &Expr) -> (r: Result<String, String>)
        requires
            old(self).ok(),
        ensures
            text_res(r, final(self).fresh) == emitted(
                old(self).cx(),
                *e,
                old(self).env(),
                old(self).fresh,
            ),
            r is Ok ==> final(self).env() == old(self).env(),
            final(self).like(*old(self)),
        decreases e, 0nat,
    {
        match &e.kind {
            ExprKind::Num(n) => Ok(emit_num(*n)),
            ExprKind::Bool(b) => Ok(
                if *b {
                    "rt::Value::Bool(true)".to_owned()
                } else {
                    "rt::Value::Bool(false)".to_owned()
                },
            ),
            ExprKind::Undef => Ok("rt::Value::Undef".to_owned()),
            ExprKind::Str(s) => Ok(cat3("rt::Value::string(", debug_of(s.as_str()).as_str(), ")")),
            ExprKind::Ident(name) => match self.local(name) {
                Some(i) => Ok(cat(self.locals[i].1.as_str(), ".clone()")),
                None => match self.constant(name) {
                    Some(i) => Ok(self.baked[i].1.emit()),
                    None => Err(cat3("free read `", name.as_str(), "` has no baked value")),
                },
            },
            ExprKind::Unary { op, operand } => match self.expr(operand) {
                Err(m) => Err(m),
                Ok(t) => Ok(
                    cat5("rt::apply_unary(rt::UnOp::", unop_of(*op), ", ", t.as_str(), ")"),
                ),
            },
            ExprKind::Binary { op, lhs, rhs } => match self.expr(lhs) {
                Err(m) => Err(m),
                Ok(a) => match self.expr(rhs) {
                    Err(m) => Err(m),
                    Ok(b) => Ok(
                        match op {
                            BinOp::And => cat5(
                                "rt::Value::Bool(",
                                a.as_str(),
                                ".is_truthy() && ",
                                b.as_str(),
                                ".is_truthy())",
                            ),
                            BinOp::Or => cat5(
                                "rt::Value::Bool(",
                                a.as_str(),
                                ".is_truthy() || ",
                                b.as_str(),
                                ".is_truthy())",
                            ),
                            _ => {
                                let mut out: String = cat5(
                                    "rt::apply_binary(rt::BinOp::",
                                    binop_of(*op),
                                    ", ",
                                    a.as_str(),
                                    ", ",
                                );
                                out.append(b.as_str());
                                out.append(")");
                                out
                            },
                        },
                    ),
                },
            },
            ExprKind::Ternary { cond, yes, no } => match self.expr(cond) {
                Err(m) => Err(m),
                Ok(c) => match self.expr(yes) {
                    Err(m) => Err(m),
                    Ok(y) => match self.expr(no) {
                        Err(m) => Err(m),
                        Ok(n) => {
                            let mut out: String = cat5(
                                "if ",
                                c.as_str(),
                                ".is_truthy() { ",
                                y.as_str(),
                                " } else { ",
                            );
                            out.append(n.as_str());
                            out.append(" }");
                            Ok(out)
                        },
                    },
                },
            },
            ExprKind::Index { base, index } => match self.expr(base) {
                Err(m) => Err(m),
                Ok(b) => match self.expr(index) {
                    Err(m) => Err(m),
                    Ok(i) => Ok(cat5("rt::index(", b.as_str(), ", &", i.as_str(), ")")),
                },
            },
            ExprKind::Member { base, field } => match self.expr(base) {
                Err(m) => Err(m),
                Ok(b) => Ok(
                    cat5(
                        "rt::member(",
                        b.as_str(),
                        ", ",
                        debug_of(field.as_str()).as_str(),
                        ")",
                    ),
                ),
            },
            ExprKind::Let { bindings, body } => {
                let mark: usize = self.locals.len();
                let ghost env = self.env();
                match self.let_bindings(bindings) {
                    Err(m) => Err(m),
                    Ok(t) => match self.expr(body) {
                        Err(m) => Err(m),
                        Ok(b) => {
                            self.close_scope(mark, Ghost(env));
                            let mut out: String = cat3("{ ", t.as_str(), b.as_str());
                            out.append(" }");
                            Ok(out)
                        },
                    },
                }
            },
            ExprKind::Assert { args, body, .. } => {
                if args.len() == 0 {
                    return Err("assert with no condition".to_owned());
                }
                if args[0].name.is_some() {
                    return Err("named assert condition".to_owned());
                }
                match self.expr(&args[0].value) {
                    Err(m) => Err(m),
                    Ok(c) => {
                        let mut out: String = cat3(
                            "{ if !(",
                            c.as_str(),
                            ").is_truthy() { return Err(rt::bosl_assert(\"generated\")); } ",
                        );
                        match body {
                            None => {
                                out.append("rt::Value::Undef");
                                out.append(" }");
                                Ok(out)
                            },
                            Some(x) => match self.expr(x) {
                                Err(m) => Err(m),
                                Ok(b) => {
                                    out.append(b.as_str());
                                    out.append(" }");
                                    Ok(out)
                                },
                            },
                        }
                    },
                }
            },
            ExprKind::Range { start, step, end } => match self.expr(start) {
                Err(m) => Err(m),
                Ok(s) => {
                    let middle: Result<String, String> = match step {
                        Some(p) => self.expr(p),
                        None => Ok(
                            "rt::Value::Num(f64::from_bits(0x3ff0000000000000_u64))".to_owned(),
                        ),
                    };
                    match middle {
                        Err(m) => Err(m),
                        Ok(t) => match self.expr(end) {
                            Err(m) => Err(m),
                            Ok(n) => {
                                let mut out: String = cat5(
                                    "rt::build_range(&",
                                    s.as_str(),
                                    ", &",
                                    t.as_str(),
                                    ", &",
                                );
                                out.append(n.as_str());
                                out.append(")");
                                Ok(out)
                            },
                        },
                    }
                },
            },
            ExprKind::Vector(items) => self.vector(items),
            ExprKind::Call { callee, args } => match &callee.kind {
                ExprKind::Ident(name) => self.call(name, args),
                _ => Err("computed callee".to_owned()),
            },
            ExprKind::FunctionLiteral { .. } | ExprKind::Echo { .. } | ExprKind::LcFor { .. }
            | ExprKind::LcForC { .. } | ExprKind::LcEach(_) | ExprKind::LcIf { .. } => Err(
                declined(show_expr(self.show, e).as_str()),
            ),
        }
    }

    /// The text of the bindings of a `let`, whose names are left in scope.
    fn let_bindings(&mut self, bs: &Vec<Arg>) -> (r: Result<String, String>)
        requires
            old(self).ok(),
        ensures
            match r {
                Ok(t) => lets(
                    old(self).cx(),
                    bs@,
                    bs@.len(),
                    old(self).env(),
                    old(self).fresh,
                ) == Ok::<_, Seq<char>>((t@, final(self).env(), final(self).fresh)),
                Err(m) => lets(
                    old(self).cx(),
                    bs@,
                    bs@.len(),
                    old(self).env(),
                    old(self).fresh,
                ) == Err::<(Seq<char>, Seq<(Seq<char>, Seq<char>)>, u64), Seq<char>>(m@),
            },
            r is Ok ==> old(self).env().is_prefix_of(final(self).env()),
            final(self).like(*old(self)),
        decreases bs@, 1nat,
    {
        let ghost cx = self.cx();
        let ghost env = self.env();
        let ghost k = self.fresh;
        let mut out: String = String::new();
        assert(out@ =~= Seq::<char>::empty());
        let mut i: usize = 0;
        while i < bs.len()
            invariant
                i <= bs@.len(),
                cx == old(self).cx(),
                env == old(self).env(),
                k == old(self).fresh,
                self.like(*old(self)),
                self.ok(),
                env.is_prefix_of(self.env()),
                lets(cx, bs@, i as nat, env, k) == Ok::<_, Seq<char>>(
                    (out@, self.env(), self.fresh),
                ),
            decreases bs@.len() - i,
        {
            let b: &Arg = &bs[i];
            let name: &Name = match &b.name {
                Some(n) => n,
                None => {
                    proof {
                        lemma_lets_stops(cx, bs@, (i + 1) as nat, env, k);
                    }
                    return Err("unnamed let binding".to_owned());
                },
            };
            if is_bound_before(bs, i, name) {
                proof {
                    lemma_lets_stops(cx, bs@, (i + 1) as nat, env, k);
                }
                return Err(cat3("duplicate let binding `", name.as_str(), "`"));
            }
            let ghost was = self.locals@;
            let v: String = match self.expr(&b.value) {
                Ok(v) => v,
                Err(m) => {
                    proof {
                        lemma_lets_stops(cx, bs@, (i + 1) as nat, env, k);
                    }
                    return Err(m);
                },
            };
            let id: String = self.fresh_ident(name.as_str());
            out.append("let ");
            out.append(id.as_str());
            out.append(" = ");
            out.append(v.as_str());
            out.append("; ");
            let ghost before = self.env();
            let ghost shown = id@;
            self.locals.push((name.clone(), id));
            assert(self.env() =~= before.push((name@, shown)));
            i += 1;
        }
        Ok(out)
    }

    /// The text that opens the loops of a `for`, whose names are left in scope.
    fn for_bindings(&mut self, bs: &Vec<Arg>) -> (r: Result<String, String>)
        requires
            old(self).ok(),
        ensures
            match r {
                Ok(t) => fors(
                    old(self).cx(),
                    bs@,
                    bs@.len(),
                    old(self).env(),
                    old(self).fresh,
                ) == Ok::<_, Seq<char>>((t@, final(self).env(), final(self).fresh)),
                Err(m) => fors(
                    old(self).cx(),
                    bs@,
                    bs@.len(),
                    old(self).env(),
                    old(self).fresh,
                ) == Err::<(Seq<char>, Seq<(Seq<char>, Seq<char>)>, u64), Seq<char>>(m@),
            },
            r is Ok ==> old(self).env().is_prefix_of(final(self).env()),
            final(self).like(*old(self)),
        decreases bs@, 1nat,
    {
        let ghost cx = self.cx();
        let ghost env = self.env();
        let ghost k = self.fresh;
        let mut out: String = String::new();
        assert(out@ =~= Seq::<char>::empty());
        let mut i: usize = 0;
        while i < bs.len()
            invariant
                i <= bs@.len(),
                cx == old(self).cx(),
                env == old(self).env(),
                k == old(self).fresh,
                self.like(*old(self)),
                self.ok(),
                env.is_prefix_of(self.env()),
                fors(cx, bs@, i as nat, env, k) == Ok::<_, Seq<char>>(
                    (out@, self.env(), self.fresh),
                ),
            decreases bs@.len() - i,
        {
            let b: &Arg = &bs[i];
            let name: &Name = match &b.name {
                Some(n) => n,
                None => {
                    proof {
                        lemma_fors_stops(cx, bs@, (i + 1) as nat, env, k);
                    }
                    return Err("unnamed comprehension binding".to_owned());
                },
            };
            let v: String = match self.expr(&b.value) {
                Ok(v) => v,
                Err(m) => {
                    proof {
                        lemma_fors_stops(cx, bs@, (i + 1) as nat, env, k);
                    }
                    return Err(m);
                },
            };
            let id: String = self.fresh_ident(name.as_str());
            out.append("for ");
            out.append(id.as_str());
            out.append(" in rt::iter_values_native(&");
            out.append(v.as_str());
            out.append(") { ");
            let ghost before = self.env();
            let ghost shown = id@;
            self.locals.push((name.clone(), id));
            assert(self.env() =~= before.push((name@, shown)));
            i += 1;
        }
        Ok(out)
    }

    /// The text of a vector.
    fn vector(&mut self, items: &Vec<Expr>) -> (r: Result<String, String>)
        requires
            old(self).ok(),
        ensures
            text_res(r, final(self).fresh) == vector_text(
                old(self).cx(),
                items@,
                old(self).env(),
                old(self).fresh,
            ),
            r is Ok ==> final(self).env() == old(self).env(),
            final(self).like(*old(self)),
        decreases items@, 2nat,
    {
        let ghost cx = self.cx();
        let ghost env = self.env();
        if all_plain(items) {
            return match self.expr_list(items) {
                Err(m) => Err(m),
                Ok(ts) => Ok(cat3("rt::build_vector(vec![", join(&ts, ", ").as_str(), "])")),
            };
        }
        let acc: String = self.fresh_ident("acc");
        let ghost k = self.fresh;
        let mut body: String = String::new();
        assert(body@ =~= Seq::<char>::empty());
        let mut i: usize = 0;
        while i < items.len()
            invariant
                i <= items@.len(),
                cx == old(self).cx(),
                env == old(self).env(),
                self.env() == env,
                self.like(*old(self)),
                self.ok(),
                elements(cx, items@, i as nat, acc@, env, k) == Ok::<_, Seq<char>>(
                    (body@, self.fresh),
                ),
                k == bumped(old(self).fresh),
                acc@ == fresh_text(old(self).fresh, "acc"@),
                !(forall|j: int| 0 <= j < items@.len() ==> !comprehends(#[trigger] items@[j])),
            decreases items@.len() - i,
        {
            match self.element(&items[i], acc.as_str()) {
                Ok(x) => {
                    body.append(x.as_str());
                },
                Err(m) => {
                    proof {
                        lemma_elements_stops(cx, items@, (i + 1) as nat, acc@, env, k);
                    }
                    return Err(m);
                },
            }
            i += 1;
        }
        let mut out: String = cat5(
            "{ let mut ",
            acc.as_str(),
            ": Vec<rt::Value> = Vec::new(); ",
            body.as_str(),
            "rt::build_vector(",
        );
        out.append(acc.as_str());
        out.append(") }");
        Ok(out)
    }

    fn expr_list(&mut self, es: &Vec<Expr>) -> (r: Result<Vec<String>, String>)
        requires
            old(self).ok(),
        ensures
            match r {
                Ok(ts) => listed(
                    old(self).cx(),
                    es@,
                    es@.len(),
                    old(self).env(),
                    old(self).fresh,
                ) == Ok::<_, Seq<char>>((texts(ts@), final(self).fresh)),
                Err(m) => listed(
                    old(self).cx(),
                    es@,
                    es@.len(),
                    old(self).env(),
                    old(self).fresh,
                ) == Err::<(Seq<Seq<char>>, u64), Seq<char>>(m@),
            },
            r is Ok ==> final(self).env() == old(self).env(),
            final(self).like(*old(self)),
        decreases es@, 1nat,
    {
        let ghost cx = self.cx();
        let ghost env = self.env();
        let ghost k = self.fresh;
        let mut ts: Vec<String> = Vec::new();
        assert(texts(ts@) =~= Seq::<Seq<char>>::empty());
        let mut i: usize = 0;
        while i < es.len()
            invariant
                i <= es@.len(),
                cx == old(self).cx(),
                env == old(self).env(),
                k == old(self).fresh,
                self.env() == env,
                self.like(*old(self)),
                self.ok(),
                listed(cx, es@, i as nat, env, k) == Ok::<_, Seq<char>>(
                    (texts(ts@), self.fresh),
                ),
            decreases es@.len() - i,
        {
            match self.expr(&es[i]) {
                Ok(t) => {
                    let ghost before = texts(ts@);
                    let ghost shown = t@;
                    ts.push(t);
                    assert(texts(ts@) =~= before.push(shown));
                },
                Err(m) => {
                    proof {
                        lemma_listed_stops(cx, es@, (i + 1) as nat, env, k);
                    }
                    return Err(m);
                },
            }
            i += 1;
        }
        Ok(ts)
    }

    fn arg_texts(&mut self, args: &Vec<Arg>) -> (r: Result<Vec<String>, String>)
        requires
            old(self).ok(),
        ensures
            match r {
                Ok(ts) => arg_list(
                    old(self).cx(),
                    args@,
                    args@.len(),
                    old(self).env(),
                    old(self).fresh,
                ) == Ok::<_, Seq<char>>((texts(ts@), final(self).fresh)),
                Err(m) => arg_list(
                    old(self).cx(),
                    args@,
                    args@.len(),
                    old(self).env(),
                    old(self).fresh,
                ) == Err::<(Seq<Seq<char>>, u64), Seq<char>>(m@),
            },
            r is Ok ==> final(self).env() == old(self).env(),
            final(self).like(*old(self)),
        decreases args@, 1nat,
    {
        let ghost cx = self.cx();
        let ghost env = self.env();
        let ghost k = self.fresh;
        let mut ts: Vec<String> = Vec::new();
        assert(texts(ts@) =~= Seq::<Seq<char>>::empty());
        let mut i: usize = 0;
        while i < args.len()
            invariant
                i <= args@.len(),
                cx == old(self).cx(),
                env == old(self).env(),
                k == old(self).fresh,
                self.env() == env,
                self.like(*old(self)),
                self.ok(),
                arg_list(cx, args@, i as nat, env, k) == Ok::<_, Seq<char>>(
                    (texts(ts@), self.fresh),
                ),
            decreases args@.len() - i,
        {
            match self.expr(&args[i].value) {
                Ok(t) => {
                    let ghost before = texts(ts@);
                    let ghost shown = t@;
                    ts.push(t);
                    assert(texts(ts@) =~= before.push(shown));
                },
                Err(m) => {
                    proof {
                        lemma_arg_list_stops(cx, args@, (i + 1) as nat, env, k);
                    }
                    return Err(m);
                },
            }
            i += 1;
        }
        Ok(ts)
    }

    fn slots(&mut self, args: &Vec<Arg>, callee: &Name, params: &Vec<Name>) -> (r: Result<
        Vec<Option<String>>,
        String,
    >)
        requires
            old(self).ok(),
        ensures
            match r {
                Ok(ts) => slotted(
                    old(self).cx(),
                    args@,
                    args@.len(),
                    callee@,
                    names_of(params@),
                    old(self).env(),
                    old(self).fresh,
                ) == Ok::<_, Seq<char>>((opt_texts(ts@), final(self).fresh)),
                Err(m) => slotted(
                    old(self).cx(),
                    args@,
                    args@.len(),
                    callee@,
                    names_of(params@),
                    old(self).env(),
                    old(self).fresh,
                ) == Err::<(Seq<Option<Seq<char>>>, u64), Seq<char>>(m@),
            },
            r is Ok ==> final(self).env() == old(self).env(),
            final(self).like(*old(self)),
        decreases args@, 1nat,
    {
        let ghost cx = self.cx();
        let ghost env = self.env();
        let ghost k = self.fresh;
        let ghost ps = names_of(params@);
        let mut slots: Vec<Option<String>> = Vec::new();
        let mut j: usize = 0;
        while j < params.len()
            invariant
                j <= params@.len(),
                slots@.len() == j,
                forall|x: int| 0 <= x < j ==> (#[trigger] slots@[x]) is None,
            decreases params@.len() - j,
        {
            slots.push(None);
            j += 1;
        }
        assert(opt_texts(slots@) =~= Seq::new(ps.len(), |x: int| None::<Seq<char>>));
        let mut i: usize = 0;
        while i < args.len()
            invariant
                i <= args@.len(),
                cx == old(self).cx(),
                env == old(self).env(),
                k == old(self).fresh,
                ps == names_of(params@),
                slots@.len() == params@.len(),
                self.env() == env,
                self.like(*old(self)),
                self.ok(),
                slotted(cx, args@, i as nat, callee@, ps, env, k) == Ok::<_, Seq<char>>(
                    (opt_texts(slots@), self.fresh),
                ),
            decreases args@.len() - i,
        {
            let v: String = match self.expr(&args[i].value) {
                Ok(t) => t,
                Err(m) => {
                    proof {
                        lemma_slotted_stops(cx, args@, (i + 1) as nat, callee@, ps, env, k);
                    }
                    return Err(m);
                },
            };
            match find_slot(&args[i], callee, params, &slots) {
                Err(m) => {
                    proof {
                        lemma_slotted_stops(cx, args@, (i + 1) as nat, callee@, ps, env, k);
                    }
                    return Err(m);
                },
                Ok(at) => {
                    let ghost before = opt_texts(slots@);
                    let ghost shown = v@;
                    slots.set(at, Some(v));
                    assert(opt_texts(slots@) =~= before.update(at as int, Some(shown)));
                },
            }
            i += 1;
        }
        Ok(slots)
    }

    /// The text of a call by name.
    pub fn call(&mut self, name: &Name, args: &Vec<Arg>) -> (r: Result<String, String>)
        requires
            old(self).ok(),
        ensures
            text_res(r, final(self).fresh) == call_text(
                old(self).cx(),
                name@,
                args@,
                old(self).env(),
                old(self).fresh,
            ),
            r is Ok ==> final(self).env() == old(self).env(),
            final(self).like(*old(self)),
        decreases args@, 2nat,
    {
        if self.local(name).is_some() {
            return Err(
                cat3(
                    "call through the local binding `",
                    name.as_str(),
                    "` (the AN.10 shape) resolves at runtime",
                ),
            );
        }
        if is_known(self.builtins, name) {
            return match self.arg_texts(args) {
                Err(m) => Err(m),
                Ok(ts) => Ok(
                    cat5(
                        "rt::builtin(\"",
                        name.as_str(),
                        "\", &[",
                        join(&ts, ", ").as_str(),
                        "])",
                    ),
                ),
            };
        }
        let at: usize = match self.sibling(name) {
            Some(i) => i,
            None => {
                return Err(
                    cat3("call to `", name.as_str(), "` (not a builtin or generated sibling)"),
                );
            },
        };
        let all: &'a Vec<(Name, Vec<Name>)> = self.siblings;
        let slots: Vec<Option<String>> = match self.slots(args, name, &all[at].1) {
            Ok(s) => s,
            Err(m) => {
                return Err(m);
            },
        };
        if is_holed(&slots) {
            return Err(
                cat3(
                    "non-contiguous arg fill for sibling `",
                    name.as_str(),
                    "` \u{2014} the slice ABI can't hole",
                ),
            );
        }
        let ts: Vec<String> = given_texts(slots);
        let mut out: String = cat3(name.as_str(), "(&[", join(&ts, ", ").as_str());
        out.append("])?");
        Ok(out)
    }

    /// The text that pushes what an element of a vector makes to `acc`.
    #[verifier::rlimit(30)]
    #[verifier::spinoff_prover]
    pub fn element(&mut self, e: &Expr, acc: &str) -> (r: Result<String, String>)
        requires
            old(self).ok(),
        ensures
            text_res(r, final(self).fresh) == element(
                old(self).cx(),
                *e,
                acc@,
                old(self).env(),
                old(self).fresh,
            ),
            r is Ok ==> final(self).env() == old(self).env(),
            final(self).like(*old(self)),
        decreases e, 1nat,
    {
        let mark: usize = self.locals.len();
        let ghost env = self.env();
        match &e.kind {
            ExprKind::LcFor { bindings, body } => match self.for_bindings(bindings) {
                Err(m) => Err(m),
                Ok(t) => match self.element(body, acc) {
                    Err(m) => Err(m),
                    Ok(b) => {
                        self.close_scope(mark, Ghost(env));
                        Ok(
                            cat3(
                                t.as_str(),
                                b.as_str(),
                                repeat("} ", bindings.len()).as_str(),
                            ),
                        )
                    },
                },
            },
            ExprKind::LcIf { cond, yes, no } => match self.expr(cond) {
                Err(m) => Err(m),
                Ok(c) => match self.element(yes, acc) {
                    Err(m) => Err(m),
                    Ok(y) => match no {
                        None => Ok(
                            cat5("if (", c.as_str(), ").is_truthy() { ", y.as_str(), " } "),
                        ),
                        Some(x) => match self.element(x, acc) {
                            Err(m) => Err(m),
                            Ok(n) => {
                                let mut out: String = cat5(
                                    "if (",
                                    c.as_str(),
                                    ").is_truthy() { ",
                                    y.as_str(),
                                    " } else { ",
                                );
                                out.append(n.as_str());
                                out.append(" } ");
                                Ok(out)
                            },
                        },
                    },
                },
            },
            ExprKind::LcEach(inner) => match self.expr(inner) {
                Err(m) => Err(m),
                Ok(v) => {
                    let each: String = self.fresh_ident("each");
                    let mut out: String = cat5(
                        "for ",
                        each.as_str(),
                        " in rt::iter_values_native(&",
                        v.as_str(),
                        ") { ",
                    );
                    out.append(acc);
                    out.append(".push(");
                    out.append(each.as_str());
                    out.append("); } ");
                    Ok(out)
                },
            },
            ExprKind::Let { bindings, body } => match self.let_bindings(bindings) {
                Err(m) => Err(m),
                Ok(t) => match self.element(body, acc) {
                    Err(m) => Err(m),
                    Ok(b) => {
                        self.close_scope(mark, Ghost(env));
                        let mut out: String = cat3("{ ", t.as_str(), b.as_str());
                        out.append(" } ");
                        Ok(out)
                    },
                },
            },
            ExprKind::LcForC { .. } => Err("C-style comprehension outside the subset".to_owned()),
            _ => match self.expr(e) {
                Err(m) => Err(m),
                Ok(v) => {
                    let mut out: String = cat3(acc, ".push(", v.as_str());
                    out.append(");\n        ");
                    Ok(out)
                },
            },
        }
    }
}

/// The text of a vector: one call where every element is one, else a block that gathers them.
pub open spec fn vector_text(
    cx: Known,
    items: Seq<Expr>,
    env: Seq<(Seq<char>, Seq<char>)>,
    k: u64,
) -> Emitted {
    if forall|i: int| 0 <= i < items.len() ==> !comprehends(#[trigger] items[i]) {
        match listed(cx, items, items.len(), env, k) {
            Err(m) => Err(m),
            Ok((ts, k1)) => Ok(
                ("rt::build_vector(vec!["@ + joined(ts, ", "@, ts.len()) + "])"@, k1),
            ),
        }
    } else {
        let acc = fresh_text(k, "acc"@);
        match elements(cx, items, items.len(), acc, env, bumped(k)) {
            Err(m) => Err(m),
            Ok((t, k1)) => Ok(
                (
                    "{ let mut "@ + acc + ": Vec<rt::Value> = Vec::new(); "@ + t
                        + "rt::build_vector("@ + acc + ") }"@,
                    k1,
                ),
            ),
        }
    }
}

/// The text of a call by name. A name that is bound in scope is not called: what it holds is only
/// known when the code runs.
pub open spec fn call_text(
    cx: Known,
    name: Seq<char>,
    args: Seq<Arg>,
    env: Seq<(Seq<char>, Seq<char>)>,
    k: u64,
) -> Emitted {
    if ident_of(env, name, env.len()) is Some {
        Err("call through the local binding `"@ + name + "` (the AN.10 shape) resolves at runtime"@)
    } else if known(cx.builtins, name) {
        match arg_list(cx, args, args.len(), env, k) {
            Err(m) => Err(m),
            Ok((ts, k1)) => Ok(
                ("rt::builtin(\""@ + name + "\", &["@ + joined(ts, ", "@, ts.len()) + "])"@, k1),
            ),
        }
    } else {
        match signature_from(cx.siblings, name, 0) {
            None => Err("call to `"@ + name + "` (not a builtin or generated sibling)"@),
            Some(params) => match slotted(cx, args, args.len(), name, params, env, k) {
                Err(m) => Err(m),
                Ok((slots, k1)) => if has_hole(slots) {
                    Err(
                        "non-contiguous arg fill for sibling `"@ + name
                            + "` \u{2014} the slice ABI can't hole"@,
                    )
                } else {
                    let ts = given(slots, slots.len());
                    Ok((name + "(&["@ + joined(ts, ", "@, ts.len()) + "])?"@, k1))
                },
            },
        }
    }
}

fn is_bound_before(bs: &Vec<Arg>, at: usize, name: &Name) -> (r: bool)
    requires
        at <= bs@.len(),
    ensures
        r == named_before(bs@, at as int, name@),
{
    let mut i: usize = 0;
    while i < at
        invariant
            i <= at <= bs@.len(),
            forall|j: int|
                0 <= j < i ==> !((#[trigger] bs@[j]).name matches Some(n) && n@ == name@),
        decreases at - i,
    {
        match &bs[i].name {
            Some(n) => {
                if same_name(n, name) {
                    assert(bs@[i as int].name matches Some(n) && n@ == name@);
                    return true;
                }
            },
            None => {},
        }
        i += 1;
    }
    false
}

fn all_plain(items: &Vec<Expr>) -> (r: bool)
    ensures
        r == (forall|i: int| 0 <= i < items@.len() ==> !comprehends(#[trigger] items@[i])),
{
    let mut i: usize = 0;
    while i < items.len()
        invariant
            i <= items@.len(),
            forall|j: int| 0 <= j < i ==> !comprehends(#[trigger] items@[j]),
        decreases items@.len() - i,
    {
        let more: bool = match &items[i].kind {
            ExprKind::LcFor { .. } => true,
            ExprKind::LcForC { .. } => true,
            ExprKind::LcIf { .. } => true,
            ExprKind::LcEach(_) => true,
            _ => false,
        };
        if more {
            assert(comprehends(items@[i as int]));
            return false;
        }
        i += 1;
    }
    true
}

fn repeat(t: &str, n: usize) -> (r: String)
    ensures
        r@ == repeated(t@, n as nat),
{
    let mut out: String = String::new();
    assert(out@ =~= Seq::<char>::empty());
    let mut i: usize = 0;
    while i < n
        invariant
            i <= n,
            out@ == repeated(t@, i as nat),
        decreases n - i,
    {
        out.append(t);
        i += 1;
    }
    out
}

/// Some optional texts, mathematically.
pub open spec fn opt_texts(ts: Seq<Option<String>>) -> Seq<Option<Seq<char>>> {
    Seq::new(
        ts.len(),
        |i: int|
            match ts[i] {
                Some(t) => Some(t@),
                None => None,
            },
    )
}

fn find_place(ns: &Vec<Name>, name: &Name) -> (r: Option<usize>)
    ensures
        match r {
            Some(i) => i < ns@.len() && place_from(names_of(ns@), name@, 0) == Some(i as int),
            None => place_from(names_of(ns@), name@, 0) is None,
        },
{
    let ghost all = names_of(ns@);
    let mut i: usize = 0;
    while i < ns.len()
        invariant
            i <= ns@.len(),
            all == names_of(ns@),
            place_from(all, name@, 0) == place_from(all, name@, i as int),
        decreases ns@.len() - i,
    {
        assert(all[i as int] == ns@[i as int]@);
        if same_name(&ns[i], name) {
            return Some(i);
        }
        i += 1;
    }
    None
}

fn find_gap(slots: &Vec<Option<String>>) -> (r: Option<usize>)
    ensures
        match r {
            Some(i) => i < slots@.len() && gap_from(opt_texts(slots@), 0) == Some(i as int),
            None => gap_from(opt_texts(slots@), 0) is None,
        },
{
    let ghost all = opt_texts(slots@);
    let mut i: usize = 0;
    while i < slots.len()
        invariant
            i <= slots@.len(),
            all == opt_texts(slots@),
            gap_from(all, 0) == gap_from(all, i as int),
        decreases slots@.len() - i,
    {
        if slots[i].is_none() {
            return Some(i);
        }
        i += 1;
    }
    None
}

fn find_slot(a: &Arg, callee: &Name, params: &Vec<Name>, slots: &Vec<Option<String>>) -> (r: Result<
    usize,
    String,
>)
    requires
        slots@.len() == params@.len(),
    ensures
        match r {
            Ok(i) => i < slots@.len() && slot_of(
                *a,
                callee@,
                names_of(params@),
                opt_texts(slots@),
            ) == Ok::<int, Seq<char>>(i as int),
            Err(m) => slot_of(*a, callee@, names_of(params@), opt_texts(slots@)) == Err::<
                int,
                Seq<char>,
            >(m@),
        },
{
    match &a.name {
        Some(name) => {
            if is_special(name.as_str()) {
                return Err(cat3("$-arg in sibling call `", callee.as_str(), "`"));
            }
            match find_place(params, name) {
                None => Err(
                    cat5(
                        "named arg `",
                        name.as_str(),
                        "` unknown to sibling `",
                        callee.as_str(),
                        "`",
                    ),
                ),
                Some(i) => {
                    if slots[i].is_some() {
                        return Err(
                            cat5(
                                "arg `",
                                name.as_str(),
                                "` supplied more than once to `",
                                callee.as_str(),
                                "`",
                            ),
                        );
                    }
                    Ok(i)
                },
            }
        },
        None => match find_gap(slots) {
            None => Err(cat3("too many args to sibling `", callee.as_str(), "`")),
            Some(i) => Ok(i),
        },
    }
}

fn is_holed(slots: &Vec<Option<String>>) -> (r: bool)
    ensures
        r == has_hole(opt_texts(slots@)),
{
    let ghost all = opt_texts(slots@);
    let mut i: usize = 0;
    while i < slots.len() && slots[i].is_some()
        invariant
            i <= slots@.len(),
            all == opt_texts(slots@),
            forall|x: int| 0 <= x < i ==> (#[trigger] all[x]) is Some,
        decreases slots@.len() - i,
    {
        i += 1;
    }
    let mut j: usize = i;
    while j < slots.len()
        invariant
            i <= j <= slots@.len(),
            all == opt_texts(slots@),
            forall|x: int| 0 <= x < i ==> (#[trigger] all[x]) is Some,
            forall|x: int| i <= x < j ==> (#[trigger] all[x]) is None,
            i < slots@.len() ==> all[i as int] is None,
        decreases slots@.len() - j,
    {
        if slots[j].is_some() {
            assert(all[j as int] is Some);
            assert(all[i as int] is None);
            return true;
        }
        j += 1;
    }
    false
}

fn given_texts(slots: Vec<Option<String>>) -> (r: Vec<String>)
    ensures
        texts(r@) == given(opt_texts(slots@), slots@.len()),
{
    let ghost all = opt_texts(slots@);
    let mut out: Vec<String> = Vec::new();
    assert(texts(out@) =~= Seq::<Seq<char>>::empty());
    let mut i: usize = 0;
    while i < slots.len()
        invariant
            i <= slots@.len(),
            all == opt_texts(slots@),
            texts(out@) == given(all, i as nat),
        decreases slots@.len() - i,
    {
        match &slots[i] {
            Some(t) => {
                let ghost before = texts(out@);
                out.push(t.clone());
                assert(texts(out@) =~= before.push(t@));
            },
            None => {},
        }
        i += 1;
    }
    out
}

proof fn lemma_lets_stops(
    cx: Known,
    bs: Seq<Arg>,
    n: nat,
    env: Seq<(Seq<char>, Seq<char>)>,
    k: u64,
)
    requires
        n <= bs.len(),
        lets(cx, bs, n, env, k) is Err,
    ensures
        lets(cx, bs, bs.len(), env, k) == lets(cx, bs, n, env, k),
    decreases bs.len() - n,
{
    if n < bs.len() {
        lemma_lets_stops(cx, bs, n + 1, env, k);
    }
}

proof fn lemma_fors_stops(
    cx: Known,
    bs: Seq<Arg>,
    n: nat,
    env: Seq<(Seq<char>, Seq<char>)>,
    k: u64,
)
    requires
        n <= bs.len(),
        fors(cx, bs, n, env, k) is Err,
    ensures
        fors(cx, bs, bs.len(), env, k) == fors(cx, bs, n, env, k),
    decreases bs.len() - n,
{
    if n < bs.len() {
        lemma_fors_stops(cx, bs, n + 1, env, k);
    }
}

proof fn lemma_elements_stops(
    cx: Known,
    es: Seq<Expr>,
    n: nat,
    acc: Seq<char>,
    env: Seq<(Seq<char>, Seq<char>)>,
    k: u64,
)
    requires
        n <= es.len(),
        elements(cx, es, n, acc, env, k) is Err,
    ensures
        elements(cx, es, es.len(), acc, env, k) == elements(cx, es, n, acc, env, k),
    decreases es.len() - n,
{
    if n < es.len() {
        lemma_elements_stops(cx, es, n + 1, acc, env, k);
    }
}

proof fn lemma_listed_stops(
    cx: Known,
    es: Seq<Expr>,
    n: nat,
    env: Seq<(Seq<char>, Seq<char>)>,
    k: u64,
)
    requires
        n <= es.len(),
        listed(cx, es, n, env, k) is Err,
    ensures
        listed(cx, es, es.len(), env, k) == listed(cx, es, n, env, k),
    decreases es.len() - n,
{
    if n < es.len() {
        lemma_listed_stops(cx, es, n + 1, env, k);
    }
}

proof fn lemma_arg_list_stops(
    cx: Known,
    args: Seq<Arg>,
    n: nat,
    env: Seq<(Seq<char>, Seq<char>)>,
    k: u64,
)
    requires
        n <= args.len(),
        arg_list(cx, args, n, env, k) is Err,
    ensures
        arg_list(cx, args, args.len(), env, k) == arg_list(cx, args, n, env, k),
    decreases args.len() - n,
{
    if n < args.len() {
        lemma_arg_list_stops(cx, args, n + 1, env, k);
    }
}

proof fn lemma_slotted_stops(
    cx: Known,
    args: Seq<Arg>,
    n: nat,
    callee: Seq<char>,
    params: Seq<Seq<char>>,
    env: Seq<(Seq<char>, Seq<char>)>,
    k: u64,
)
    requires
        n <= args.len(),
        slotted(cx, args, n, callee, params, env, k) is Err,
    ensures
        slotted(cx, args, args.len(), callee, params, env, k) == slotted(
            cx,
            args,
            n,
            callee,
            params,
            env,
            k,
        ),
    decreases args.len() - n,
{
    if n < args.len() {
        lemma_slotted_stops(cx, args, n + 1, callee, params, env, k);
    }
}

}
